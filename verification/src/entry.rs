//! The entries of a listing and the order they are shown in.

use vstd::prelude::*;
use vstd::string::StringSliceAdditionalSpecFns;
use crate::bytes::{bytes_lt, bytes_order, compare_bytes, copy_bytes, lemma_bytes_order_laws, Order};
use crate::config::{Config, Format, Sort};

verus! {

/// A point in time: whole seconds since the Unix epoch (negative before it)
/// and the nanoseconds past that second.
#[derive(PartialEq, Eq, Structural, Clone, Copy, Debug)]
pub struct FileTime {
    pub secs: i64,
    pub nanos: u32,
}

/// What a listing knows of one entry.
pub struct EntryInfo {
    /// The name, as raw bytes.
    pub name: Vec<u8>,
    pub modified_at: FileTime,
    pub size: u64,
    pub is_dir: bool,
    pub is_symlink: bool,
    /// Where a symbolic link points, when the long format asked for it.
    pub symlink_target: Option<Vec<u8>>,
    pub permissions: u32,
    pub uid: u32,
    pub gid: u32,
    pub nlink: u64,
    pub blocks_512: u64,
}

/// The fields of a file's metadata that a listing reads.
pub struct Metadata {
    pub modified_at: FileTime,
    pub size: u64,
    pub is_dir: bool,
    pub is_symlink: bool,
    pub permissions: u32,
    pub uid: u32,
    pub gid: u32,
    pub nlink: u64,
    pub blocks_512: u64,
}

/// Why a directory could not be read.
#[derive(PartialEq, Eq, Structural, Clone, Copy, Debug)]
pub enum ErrorKind {
    NotFound,
    PermissionDenied,
    NotADirectory,
    Other,
}

/// The three-way comparison of two integers.
pub open spec fn int_order(a: int, b: int) -> Order {
    if a < b {
        Order::Less
    } else if a == b {
        Order::Equal
    } else {
        Order::Greater
    }
}

/// The first comparison, and where it ties, the second.
pub open spec fn then_order(first: Order, second: Order) -> Order {
    if first == Order::Equal {
        second
    } else {
        first
    }
}

/// What entries are sorted by: a primary and a secondary number, smallest
/// first, then the name in byte order. Unsorted, every entry has the same
/// key, so that a stable sort keeps them where they are.
pub open spec fn sort_key(e: EntryInfo, sort: Sort) -> (int, int, Seq<u8>) {
    match sort {
        Sort::Time => (-e.modified_at.secs, -e.modified_at.nanos, e.name@),
        Sort::Size => (-e.size, 0, e.name@),
        Sort::Default => (0, 0, e.name@),
        Sort::Unsorted => (0, 0, Seq::empty()),
    }
}

pub open spec fn key_order(x: (int, int, Seq<u8>), y: (int, int, Seq<u8>)) -> Order {
    then_order(then_order(int_order(x.0, y.0), int_order(x.1, y.1)), bytes_order(x.2, y.2))
}

/// The order a listing shows entries in: newest first (`Time`), largest
/// first (`Size`), with ties and the default by name; all of it turned
/// around when `reverse` is set.
pub open spec fn entry_order(a: EntryInfo, b: EntryInfo, sort: Sort, reverse: bool) -> Order {
    let o = key_order(sort_key(a, sort), sort_key(b, sort));
    if reverse {
        o.flipped()
    } else {
        o
    }
}

proof fn lemma_key_order_laws()
    ensures
        forall|x: (int, int, Seq<u8>), y: (int, int, Seq<u8>)|
            #[trigger] key_order(x, y) == key_order(y, x).flipped(),
        forall|x: (int, int, Seq<u8>), y: (int, int, Seq<u8>)|
            #[trigger] key_order(x, y) == Order::Equal <==> x == y,
        forall|x: (int, int, Seq<u8>), y: (int, int, Seq<u8>), z: (int, int, Seq<u8>)|
            #[trigger] key_order(x, y) == Order::Less && #[trigger] key_order(y, z) == Order::Less
                ==> key_order(x, z) == Order::Less,
{
    lemma_bytes_order_laws();
    assert forall|x: (int, int, Seq<u8>), y: (int, int, Seq<u8>)|
        #[trigger] key_order(x, y) == Order::Equal <==> x == y by {
        if key_order(x, y) == Order::Equal {
            assert(x.0 == y.0 && x.1 == y.1 && x.2 == y.2);
        }
    }
}

/// `entry_order` is a total preorder: it turns around when its arguments
/// swap, ties exactly the entries with the same key, and is transitive.
pub proof fn lemma_entry_order_laws(sort: Sort, reverse: bool)
    ensures
        forall|a: EntryInfo, b: EntryInfo|
            #[trigger] entry_order(a, b, sort, reverse) == entry_order(b, a, sort, reverse).flipped(),
        forall|a: EntryInfo, b: EntryInfo|
            #[trigger] entry_order(a, b, sort, reverse) == Order::Equal <==> sort_key(a, sort)
                == sort_key(b, sort),
        forall|a: EntryInfo, b: EntryInfo, c: EntryInfo|
            #[trigger] entry_order(a, b, sort, reverse) == Order::Less && #[trigger] entry_order(
                b,
                c,
                sort,
                reverse,
            ) != Order::Greater ==> entry_order(a, c, sort, reverse) == Order::Less,
        forall|a: EntryInfo, b: EntryInfo, c: EntryInfo|
            #[trigger] entry_order(a, b, sort, reverse) != Order::Greater && #[trigger] entry_order(
                b,
                c,
                sort,
                reverse,
            ) == Order::Less ==> entry_order(a, c, sort, reverse) == Order::Less,
        forall|a: EntryInfo, b: EntryInfo, c: EntryInfo|
            #[trigger] entry_order(a, b, sort, reverse) != Order::Greater && #[trigger] entry_order(
                b,
                c,
                sort,
                reverse,
            ) != Order::Greater ==> entry_order(a, c, sort, reverse) != Order::Greater,
{
    lemma_key_order_laws();
    assert forall|a: EntryInfo, b: EntryInfo, c: EntryInfo|
        #[trigger] entry_order(a, b, sort, reverse) == Order::Less && #[trigger] entry_order(
            b,
            c,
            sort,
            reverse,
        ) != Order::Greater implies entry_order(a, c, sort, reverse) == Order::Less by {
        let ka = sort_key(a, sort);
        let kb = sort_key(b, sort);
        let kc = sort_key(c, sort);
        assert(key_order(ka, kb) == key_order(kb, ka).flipped());
        assert(key_order(kb, kc) == key_order(kc, kb).flipped());
        assert(key_order(ka, kc) == key_order(kc, ka).flipped());
        if reverse {
            if key_order(kc, kb) == Order::Less {
                assert(key_order(kc, ka) == Order::Less);
            }
        } else {
            if key_order(kb, kc) == Order::Less {
                assert(key_order(ka, kc) == Order::Less);
            }
        }
    }
    assert forall|a: EntryInfo, b: EntryInfo, c: EntryInfo|
        #[trigger] entry_order(a, b, sort, reverse) != Order::Greater && #[trigger] entry_order(
            b,
            c,
            sort,
            reverse,
        ) == Order::Less implies entry_order(a, c, sort, reverse) == Order::Less by {
        let ka = sort_key(a, sort);
        let kb = sort_key(b, sort);
        let kc = sort_key(c, sort);
        assert(key_order(ka, kb) == key_order(kb, ka).flipped());
        assert(key_order(kb, kc) == key_order(kc, kb).flipped());
        assert(key_order(ka, kc) == key_order(kc, ka).flipped());
        if reverse {
            if key_order(kb, ka) == Order::Less {
                assert(key_order(kc, ka) == Order::Less);
            }
        } else {
            if key_order(ka, kb) == Order::Less {
                assert(key_order(ka, kc) == Order::Less);
            }
        }
    }
    assert forall|a: EntryInfo, b: EntryInfo, c: EntryInfo|
        #[trigger] entry_order(a, b, sort, reverse) != Order::Greater && #[trigger] entry_order(
            b,
            c,
            sort,
            reverse,
        ) != Order::Greater implies entry_order(a, c, sort, reverse) != Order::Greater by {
        let ka = sort_key(a, sort);
        let kb = sort_key(b, sort);
        let kc = sort_key(c, sort);
        assert(key_order(ka, kb) == key_order(kb, ka).flipped());
        assert(key_order(kb, kc) == key_order(kc, kb).flipped());
        assert(key_order(ka, kc) == key_order(kc, ka).flipped());
        if reverse {
            if key_order(kc, kb) == Order::Less && key_order(kb, ka) == Order::Less {
                assert(key_order(kc, ka) == Order::Less);
            }
        } else {
            if key_order(ka, kb) == Order::Less && key_order(kb, kc) == Order::Less {
                assert(key_order(ka, kc) == Order::Less);
            }
        }
    }
}

fn compare_ints(a: u64, b: u64) -> (r: Order)
    ensures
        r == int_order(a as int, b as int),
{
    if a < b {
        Order::Less
    } else if a == b {
        Order::Equal
    } else {
        Order::Greater
    }
}

fn compare_times(a: FileTime, b: FileTime) -> (r: Order)
    ensures
        r == then_order(
            int_order(a.secs as int, b.secs as int),
            int_order(a.nanos as int, b.nanos as int),
        ),
{
    if a.secs < b.secs {
        Order::Less
    } else if a.secs > b.secs {
        Order::Greater
    } else if a.nanos < b.nanos {
        Order::Less
    } else if a.nanos == b.nanos {
        Order::Equal
    } else {
        Order::Greater
    }
}

impl EntryInfo {
    /// Compares two entries in the order the configuration sorts them by.
    pub fn cmp_with_config(&self, other: &EntryInfo, config: &Config) -> (r: Order)
        ensures
            r == entry_order(*self, *other, config.sort, config.reverse),
    {
        let mut ordering = match config.sort {
            Sort::Time => {
                let t = compare_times(other.modified_at, self.modified_at);
                if t == Order::Equal {
                    compare_bytes(self.name.as_slice(), other.name.as_slice())
                } else {
                    t
                }
            },
            Sort::Size => {
                let s = compare_ints(other.size, self.size);
                if s == Order::Equal {
                    compare_bytes(self.name.as_slice(), other.name.as_slice())
                } else {
                    s
                }
            },
            Sort::Default => compare_bytes(self.name.as_slice(), other.name.as_slice()),
            Sort::Unsorted => Order::Equal,
        };
        if config.reverse {
            ordering = ordering.reverse();
        }
        ordering
    }
}

/// Whether `a` is shown strictly before `b`.
fn comes_before(a: &EntryInfo, b: &EntryInfo, config: &Config) -> (r: bool)
    ensures
        r == (entry_order(*a, *b, config.sort, config.reverse) == Order::Less),
{
    a.cmp_with_config(b, config) == Order::Less
}

/// `s` is in the order: no entry is shown after one that it precedes.
pub open spec fn sorted_by(s: Seq<EntryInfo>, sort: Sort, reverse: bool) -> bool {
    forall|i: int, j: int|
        0 <= i < j < s.len() ==> #[trigger] entry_order(s[i], s[j], sort, reverse)
            != Order::Greater
}

/// `output[k]` is `input[p[k]]` for a one-to-one `p`, and entries that tie
/// keep the order they had in `input`.
pub open spec fn stable_permutation(
    input: Seq<EntryInfo>,
    output: Seq<EntryInfo>,
    p: Seq<int>,
    sort: Sort,
    reverse: bool,
) -> bool {
    &&& p.len() == input.len()
    &&& output.len() == input.len()
    &&& forall|k: int| 0 <= k < p.len() ==> 0 <= #[trigger] p[k] < input.len()
    &&& forall|k: int| 0 <= k < p.len() ==> output[k] == input[#[trigger] p[k]]
    &&& forall|k: int, l: int| 0 <= k < l < p.len() ==> #[trigger] p[k] != #[trigger] p[l]
    &&& forall|k: int, l: int|
        0 <= k < l < p.len() && #[trigger] entry_order(output[k], output[l], sort, reverse)
            == Order::Equal ==> p[k] < p[l]
}

/// `output` is `input` sorted, ties kept in their order (a stable sort).
pub open spec fn is_stable_sort_of(
    input: Seq<EntryInfo>,
    output: Seq<EntryInfo>,
    sort: Sort,
    reverse: bool,
) -> bool {
    &&& sorted_by(output, sort, reverse)
    &&& exists|p: Seq<int>| stable_permutation(input, output, p, sort, reverse)
}

/// After `i` steps of an insertion sort: `result` is the first `i` entries of
/// `input`, sorted stably, with `p` saying where each came from.
spec fn sort_progress(
    input: Seq<EntryInfo>,
    result: Seq<EntryInfo>,
    p: Seq<int>,
    i: int,
    sort: Sort,
    reverse: bool,
) -> bool {
    &&& 0 <= i <= input.len()
    &&& sorted_by(result, sort, reverse)
    &&& p.len() == i
    &&& result.len() == i
    &&& forall|k: int| 0 <= k < p.len() ==> 0 <= #[trigger] p[k] < i
    &&& forall|k: int| 0 <= k < p.len() ==> result[k] == input[#[trigger] p[k]]
    &&& forall|k: int, l: int| 0 <= k < l < p.len() ==> #[trigger] p[k] != #[trigger] p[l]
    &&& forall|k: int, l: int|
        0 <= k < l < p.len() && #[trigger] entry_order(result[k], result[l], sort, reverse)
            == Order::Equal ==> p[k] < p[l]
}

/// Every entry from `pos` on comes strictly after the inserted one.
proof fn lemma_insert_suffix(
    result: Seq<EntryInfo>,
    x: EntryInfo,
    pos: int,
    sort: Sort,
    reverse: bool,
)
    requires
        sorted_by(result, sort, reverse),
        0 <= pos <= result.len(),
        pos < result.len() ==> entry_order(x, result[pos], sort, reverse) == Order::Less,
    ensures
        forall|m: int|
            pos <= m < result.len() ==> entry_order(x, #[trigger] result[m], sort, reverse)
                == Order::Less,
{
    lemma_entry_order_laws(sort, reverse);
    assert forall|m: int| pos <= m < result.len() implies entry_order(
        x,
        #[trigger] result[m],
        sort,
        reverse,
    ) == Order::Less by {
        if m > pos {
            assert(entry_order(result[pos], result[m], sort, reverse) != Order::Greater);
        }
    }
}

#[verifier::spinoff_prover]
proof fn lemma_insert_sorted(
    result: Seq<EntryInfo>,
    x: EntryInfo,
    pos: int,
    sort: Sort,
    reverse: bool,
)
    requires
        sorted_by(result, sort, reverse),
        0 <= pos <= result.len(),
        forall|k: int|
            0 <= k < pos ==> entry_order(x, #[trigger] result[k], sort, reverse) != Order::Less,
        forall|m: int|
            pos <= m < result.len() ==> entry_order(x, #[trigger] result[m], sort, reverse)
                == Order::Less,
    ensures
        sorted_by(result.insert(pos, x), sort, reverse),
{
    lemma_entry_order_laws(sort, reverse);
    let r2 = result.insert(pos, x);
    assert forall|k: int, l: int| 0 <= k < l < r2.len() implies #[trigger] entry_order(
        r2[k],
        r2[l],
        sort,
        reverse,
    ) != Order::Greater by {
        if l < pos {
            assert(r2[k] == result[k] && r2[l] == result[l]);
        } else if l == pos {
            assert(entry_order(x, result[k], sort, reverse) != Order::Less);
            assert(entry_order(result[k], x, sort, reverse) == entry_order(
                x,
                result[k],
                sort,
                reverse,
            ).flipped());
        } else if k == pos {
            assert(entry_order(x, result[l - 1], sort, reverse) == Order::Less);
        } else if k > pos {
            assert(r2[k] == result[k - 1] && r2[l] == result[l - 1]);
        } else {
            assert(r2[k] == result[k] && r2[l] == result[l - 1]);
        }
    }
}

#[verifier::spinoff_prover]
proof fn lemma_insert_stable(
    input: Seq<EntryInfo>,
    result: Seq<EntryInfo>,
    p: Seq<int>,
    i: int,
    pos: int,
    sort: Sort,
    reverse: bool,
)
    requires
        sort_progress(input, result, p, i, sort, reverse),
        i < input.len(),
        0 <= pos <= result.len(),
        forall|m: int|
            pos <= m < result.len() ==> entry_order(input[i], #[trigger] result[m], sort, reverse)
                == Order::Less,
    ensures
        forall|k: int, l: int|
            0 <= k < l < p.len() + 1 && #[trigger] entry_order(
                result.insert(pos, input[i])[k],
                result.insert(pos, input[i])[l],
                sort,
                reverse,
            ) == Order::Equal ==> p.insert(pos, i)[k] < p.insert(pos, i)[l],
{
    let x = input[i];
    let r2 = result.insert(pos, x);
    let p2 = p.insert(pos, i);
    assert forall|k: int, l: int|
        0 <= k < l < p2.len() && #[trigger] entry_order(r2[k], r2[l], sort, reverse)
            == Order::Equal implies p2[k] < p2[l] by {
        if l < pos {
            assert(r2[k] == result[k] && r2[l] == result[l]);
        } else if l == pos {
            assert(0 <= p[k] < i);
        } else if k == pos {
            assert(entry_order(x, result[l - 1], sort, reverse) == Order::Less);
        } else if k > pos {
            assert(r2[k] == result[k - 1] && r2[l] == result[l - 1]);
        } else {
            assert(r2[k] == result[k] && r2[l] == result[l - 1]);
        }
    }
}

/// Inserting the next entry after every entry it does not precede, and
/// before the rest, is one more step of the stable insertion sort.
proof fn lemma_insert_step(
    input: Seq<EntryInfo>,
    result: Seq<EntryInfo>,
    p: Seq<int>,
    i: int,
    pos: int,
    sort: Sort,
    reverse: bool,
)
    requires
        sort_progress(input, result, p, i, sort, reverse),
        i < input.len(),
        0 <= pos <= result.len(),
        forall|k: int|
            0 <= k < pos ==> entry_order(input[i], #[trigger] result[k], sort, reverse)
                != Order::Less,
        pos < result.len() ==> entry_order(input[i], result[pos], sort, reverse) == Order::Less,
    ensures
        sort_progress(
            input,
            result.insert(pos, input[i]),
            p.insert(pos, i),
            i + 1,
            sort,
            reverse,
        ),
{
    let x = input[i];
    let r2 = result.insert(pos, x);
    let p2 = p.insert(pos, i);
    lemma_insert_suffix(result, x, pos, sort, reverse);
    lemma_insert_sorted(result, x, pos, sort, reverse);
    lemma_insert_stable(input, result, p, i, pos, sort, reverse);
    assert forall|k: int, l: int| 0 <= k < l < p2.len() implies #[trigger] p2[k]
        != #[trigger] p2[l] by {
        if l < pos {
            assert(p[k] != p[l]);
        } else if l == pos {
            assert(0 <= p[k] < i);
        } else if k == pos {
            assert(0 <= p[l - 1] < i);
        } else if k > pos {
            assert(p[k - 1] != p[l - 1]);
        } else {
            assert(p[k] != p[l - 1]);
        }
    }
    assert forall|k: int| 0 <= k < p2.len() implies 0 <= #[trigger] p2[k] < i + 1 by {
        if k < pos {
            assert(0 <= p[k] < i);
        } else if k > pos {
            assert(0 <= p[k - 1] < i);
        }
    }
    assert forall|k: int| 0 <= k < p2.len() implies r2[k] == input[#[trigger] p2[k]] by {
        if k < pos {
            assert(result[k] == input[p[k]]);
        } else if k > pos {
            assert(result[k - 1] == input[p[k - 1]]);
        }
    }
}

/// Sorts the entries in the order of the configuration, stably; unsorted
/// (`-f`), they stay as they are.
pub fn sort_entries_by(config: &Config, entries: &mut Vec<EntryInfo>)
    ensures
        is_stable_sort_of(old(entries)@, final(entries)@, config.sort, config.reverse),
        config.sort == Sort::Unsorted ==> final(entries)@ == old(entries)@,
{
    let ghost sort = config.sort;
    let ghost reverse = config.reverse;
    let mut rest: Vec<EntryInfo> = Vec::new();
    std::mem::swap(entries, &mut rest);
    let ghost input = rest@;
    let ghost n = input.len();
    let mut result: Vec<EntryInfo> = Vec::new();
    let ghost mut p: Seq<int> = Seq::empty();
    let ghost mut i: int = 0;
    while rest.len() > 0
        invariant
            n == input.len(),
            rest@ == input.subrange(i, n as int),
            sort == config.sort,
            reverse == config.reverse,
            sort_progress(input, result@, p, i, sort, reverse),
        decreases rest.len(),
    {
        let x = rest.remove(0);
        proof {
            assert(input[i] == x);
            assert(rest@ =~= input.subrange(i + 1, n as int));
        }
        let mut pos: usize = 0;
        while pos < result.len() && !comes_before(&x, &result[pos], config)
            invariant
                pos <= result@.len(),
                forall|k: int| 0 <= k < pos ==> entry_order(x, #[trigger] result@[k], sort, reverse)
                    != Order::Less,
                sort == config.sort,
                reverse == config.reverse,
            decreases result.len() - pos,
        {
            pos = pos + 1;
        }
        proof {
            lemma_insert_step(input, result@, p, i, pos as int, sort, reverse);
            p = p.insert(pos as int, i);
            i = i + 1;
        }
        result.insert(pos, x);
    }
    proof {
        assert(stable_permutation(input, result@, p, sort, reverse));
        if sort == Sort::Unsorted {
            lemma_unsorted_keeps_order(input, result@, reverse);
        }
    }
    *entries = result;
}

impl EntryInfo {
    /// A plain entry of the given name: an empty regular file with mode 644
    /// and one link, owned by user and group 0, modified at the epoch.
    pub fn from_name_only(name: &str) -> (e: EntryInfo)
        ensures
            e.name@ == name.spec_bytes(),
            e.modified_at == (FileTime { secs: 0, nanos: 0 }),
            e.size == 0,
            !e.is_dir,
            !e.is_symlink,
            e.symlink_target is None,
            e.permissions == 0o644,
            e.uid == 0,
            e.gid == 0,
            e.nlink == 1,
            e.blocks_512 == 0,
    {
        EntryInfo {
            name: copy_bytes(name.as_bytes()),
            modified_at: FileTime { secs: 0, nanos: 0 },
            size: 0,
            is_dir: false,
            is_symlink: false,
            symlink_target: None,
            permissions: 0o644,
            uid: 0,
            gid: 0,
            nlink: 1,
            blocks_512: 0,
        }
    }

    /// As `from_name_only`, modified at `modified_at`.
    pub fn from_parts(name: &str, modified_at: FileTime) -> (e: EntryInfo)
        ensures
            e.name@ == name.spec_bytes(),
            e.modified_at == modified_at,
            e.size == 0,
            !e.is_dir,
            !e.is_symlink,
            e.symlink_target is None,
            e.permissions == 0o644,
            e.uid == 0,
            e.gid == 0,
            e.nlink == 1,
            e.blocks_512 == 0,
    {
        let mut e = EntryInfo::from_name_only(name);
        e.modified_at = modified_at;
        e
    }

    /// As `from_name_only`, of size `size`.
    pub fn from_size(name: &str, size: u64) -> (e: EntryInfo)
        ensures
            e.name@ == name.spec_bytes(),
            e.modified_at == (FileTime { secs: 0, nanos: 0 }),
            e.size == size,
            !e.is_dir,
            !e.is_symlink,
            e.symlink_target is None,
            e.permissions == 0o644,
            e.uid == 0,
            e.gid == 0,
            e.nlink == 1,
            e.blocks_512 == 0,
    {
        let mut e = EntryInfo::from_name_only(name);
        e.size = size;
        e
    }
}

/// `p` sends `0..n` one-to-one into `0..n`.
pub open spec fn is_permutation(p: Seq<int>, n: int) -> bool {
    &&& p.len() == n
    &&& forall|k: int| 0 <= k < n ==> 0 <= #[trigger] p[k] < n
    &&& forall|k: int, l: int| 0 <= k < l < n ==> #[trigger] p[k] != #[trigger] p[l]
}

/// Some index is sent to `j`.
pub open spec fn reaches(p: Seq<int>, j: int) -> bool {
    exists|k: int| 0 <= k < p.len() && #[trigger] p[k] == j
}

/// A one-to-one map of `0..n` into itself reaches every index.
pub proof fn lemma_permutation_onto(p: Seq<int>, n: int)
    requires
        is_permutation(p, n),
    ensures
        forall|j: int| 0 <= j < n ==> #[trigger] reaches(p, j),
{
    broadcast use vstd::seq_lib::seq_to_set_is_finite;

    assert(p.no_duplicates()) by {
        assert forall|i: int, j: int|
            0 <= i < p.len() && 0 <= j < p.len() && i != j implies p[i] != p[j] by {
            if i < j {
                assert(p[i] != p[j]);
            } else {
                assert(p[j] != p[i]);
            }
        }
    }
    p.unique_seq_to_set();
    if n >= 0 {
        vstd::set_lib::lemma_int_range(0, n);
        let range = vstd::set_lib::set_int_range(0, n);
        assert(p.to_set().subset_of(range)) by {
            assert forall|x: int| p.to_set().contains(x) implies range.contains(x) by {
                let k = choose|k: int| 0 <= k < p.len() && p[k] == x;
                assert(0 <= p[k] < n);
            }
        }
        vstd::set_lib::lemma_subset_equality(p.to_set(), range);
        assert forall|j: int| 0 <= j < n implies #[trigger] reaches(p, j) by {
            assert(range.contains(j));
            assert(p.to_set().contains(j));
            assert(p.contains(j));
        }
    }
}

/// The fields of two entries hold the same values.
pub open spec fn same_entry(a: EntryInfo, b: EntryInfo) -> bool {
    &&& a.name@ == b.name@
    &&& a.modified_at == b.modified_at
    &&& a.size == b.size
    &&& a.is_dir == b.is_dir
    &&& a.is_symlink == b.is_symlink
    &&& match (a.symlink_target, b.symlink_target) {
        (Some(x), Some(y)) => x@ == y@,
        (None, None) => true,
        _ => false,
    }
    &&& a.permissions == b.permissions
    &&& a.uid == b.uid
    &&& a.gid == b.gid
    &&& a.nlink == b.nlink
    &&& a.blocks_512 == b.blocks_512
}

impl EntryInfo {
    /// A copy of this entry.
    pub fn duplicate(&self) -> (e: EntryInfo)
        ensures
            same_entry(e, *self),
    {
        EntryInfo {
            name: copy_bytes(self.name.as_slice()),
            modified_at: self.modified_at,
            size: self.size,
            is_dir: self.is_dir,
            is_symlink: self.is_symlink,
            symlink_target: match &self.symlink_target {
                Some(t) => Some(copy_bytes(t.as_slice())),
                None => None,
            },
            permissions: self.permissions,
            uid: self.uid,
            gid: self.gid,
            nlink: self.nlink,
            blocks_512: self.blocks_512,
        }
    }

    /// The entry of `name` with these metadata; the target of a symbolic
    /// link is kept only where the long format shows it.
    pub fn from_metadata(
        name: Vec<u8>,
        metadata: &Metadata,
        link_target: Option<Vec<u8>>,
        config: &Config,
    ) -> (e: EntryInfo)
        ensures
            e.name == name,
            e.modified_at == metadata.modified_at,
            e.size == metadata.size,
            e.is_dir == metadata.is_dir,
            e.is_symlink == metadata.is_symlink,
            e.symlink_target == (if metadata.is_symlink && config.format == Format::Long {
                link_target
            } else {
                None
            }),
            e.permissions == metadata.permissions,
            e.uid == metadata.uid,
            e.gid == metadata.gid,
            e.nlink == metadata.nlink,
            e.blocks_512 == metadata.blocks_512,
    {
        let symlink_target = if metadata.is_symlink && config.format == Format::Long {
            link_target
        } else {
            None
        };
        EntryInfo {
            name,
            modified_at: metadata.modified_at,
            size: metadata.size,
            is_dir: metadata.is_dir,
            is_symlink: metadata.is_symlink,
            symlink_target,
            permissions: metadata.permissions,
            uid: metadata.uid,
            gid: metadata.gid,
            nlink: metadata.nlink,
            blocks_512: metadata.blocks_512,
        }
    }
}

/// Whether the target of a symbolic link is to be read: only the long
/// format shows it.
pub fn needs_link_target(config: &Config, is_symlink: bool) -> (r: bool)
    ensures
        r == (is_symlink && config.format == Format::Long),
{
    is_symlink && config.format == Format::Long
}

/// Each entry of `s` comes strictly after the next one in key order.
spec fn strictly_descending(s: Seq<EntryInfo>, sort: Sort) -> bool {
    forall|k: int, l: int|
        0 <= k < l < s.len() ==> #[trigger] key_order(sort_key(s[k], sort), sort_key(s[l], sort))
            == Order::Greater
}

/// Every entry of `a` occurs in `b`.
spec fn occurs_in(a: Seq<EntryInfo>, b: Seq<EntryInfo>) -> bool {
    forall|k: int| 0 <= k < a.len() ==> #[trigger] b.contains(a[k])
}

/// Two strictly descending sequences of the same length, each of whose
/// entries occurs in the other, are the same.
proof fn lemma_descending_unique(s: Seq<EntryInfo>, t: Seq<EntryInfo>, sort: Sort)
    requires
        s.len() == t.len(),
        strictly_descending(s, sort),
        strictly_descending(t, sort),
        occurs_in(s, t),
        occurs_in(t, s),
    ensures
        s == t,
    decreases s.len(),
{
    lemma_key_order_laws();
    if s.len() > 0 {
        assert(t.contains(s[0]));
        let a = choose|a: int| 0 <= a < t.len() && t[a] == s[0];
        assert(s.contains(t[0]));
        let b = choose|b: int| 0 <= b < s.len() && s[b] == t[0];
        if a > 0 {
            assert(key_order(sort_key(t[0], sort), sort_key(t[a], sort)) == Order::Greater);
            if b > 0 {
                assert(key_order(sort_key(s[0], sort), sort_key(s[b], sort)) == Order::Greater);
            }
            assert(false);
        }
        let s2 = s.drop_first();
        let t2 = t.drop_first();
        assert forall|k: int| 0 <= k < s2.len() implies #[trigger] t2.contains(s2[k]) by {
            assert(t.contains(s[k + 1]));
            let m = choose|m: int| 0 <= m < t.len() && t[m] == s[k + 1];
            assert(key_order(sort_key(s[0], sort), sort_key(s[k + 1], sort)) == Order::Greater);
            assert(m != 0);
            assert(t2[m - 1] == s2[k]);
        }
        assert forall|k: int| 0 <= k < t2.len() implies #[trigger] s2.contains(t2[k]) by {
            assert(s.contains(t[k + 1]));
            let m = choose|m: int| 0 <= m < s.len() && s[m] == t[k + 1];
            assert(key_order(sort_key(t[0], sort), sort_key(t[k + 1], sort)) == Order::Greater);
            assert(m != 0);
            assert(s2[m - 1] == t2[k]);
        }
        assert forall|k: int, l: int| 0 <= k < l < s2.len() implies #[trigger] key_order(
            sort_key(s2[k], sort),
            sort_key(s2[l], sort),
        ) == Order::Greater by {
            assert(key_order(sort_key(s[k + 1], sort), sort_key(s[l + 1], sort)) == Order::Greater);
        }
        assert forall|k: int, l: int| 0 <= k < l < t2.len() implies #[trigger] key_order(
            sort_key(t2[k], sort),
            sort_key(t2[l], sort),
        ) == Order::Greater by {
            assert(key_order(sort_key(t[k + 1], sort), sort_key(t[l + 1], sort)) == Order::Greater);
        }
        lemma_descending_unique(s2, t2, sort);
        assert(s =~= t) by {
            assert forall|k: int| 0 <= k < s.len() implies s[k] == t[k] by {
                if k > 0 {
                    assert(s2[k - 1] == t2[k - 1]);
                }
            }
        }
    }
}

/// Reversing the order (`-r`) lists entries, no two of which tie, in
/// exactly the opposite order.
pub proof fn lemma_reverse_sort_reverses(
    input: Seq<EntryInfo>,
    asc: Seq<EntryInfo>,
    desc: Seq<EntryInfo>,
    sort: Sort,
)
    requires
        is_stable_sort_of(input, asc, sort, false),
        is_stable_sort_of(input, desc, sort, true),
        forall|i: int, j: int|
            0 <= i < j < input.len() ==> #[trigger] sort_key(input[i], sort) != #[trigger] sort_key(
                input[j],
                sort,
            ),
    ensures
        desc == asc.reverse(),
{
    lemma_key_order_laws();
    let n = input.len() as int;
    let p = choose|p: Seq<int>| stable_permutation(input, asc, p, sort, false);
    let q = choose|q: Seq<int>| stable_permutation(input, desc, q, sort, true);
    lemma_permutation_onto(p, n);
    lemma_permutation_onto(q, n);
    let r = asc.reverse();
    // entries at different places have different keys
    assert forall|k: int, l: int| 0 <= k < n && 0 <= l < n && k != l implies sort_key(
        asc[k],
        sort,
    ) != sort_key(asc[l], sort) by {
        assert(asc[k] == input[p[k]] && asc[l] == input[p[l]]);
        if k < l {
            assert(p[k] != p[l]);
        } else {
            assert(p[l] != p[k]);
        }
        if p[k] < p[l] {
            assert(sort_key(input[p[k]], sort) != sort_key(input[p[l]], sort));
        } else {
            assert(sort_key(input[p[l]], sort) != sort_key(input[p[k]], sort));
        }
    }
    assert forall|k: int, l: int| 0 <= k < n && 0 <= l < n && k != l implies sort_key(
        desc[k],
        sort,
    ) != sort_key(desc[l], sort) by {
        assert(desc[k] == input[q[k]] && desc[l] == input[q[l]]);
        if k < l {
            assert(q[k] != q[l]);
        } else {
            assert(q[l] != q[k]);
        }
        if q[k] < q[l] {
            assert(sort_key(input[q[k]], sort) != sort_key(input[q[l]], sort));
        } else {
            assert(sort_key(input[q[l]], sort) != sort_key(input[q[k]], sort));
        }
    }
    assert forall|k: int, l: int| 0 <= k < l < r.len() implies #[trigger] key_order(
        sort_key(r[k], sort),
        sort_key(r[l], sort),
    ) == Order::Greater by {
        let x = sort_key(asc[n - 1 - l], sort);
        let y = sort_key(asc[n - 1 - k], sort);
        assert(entry_order(asc[n - 1 - l], asc[n - 1 - k], sort, false) != Order::Greater);
        assert(key_order(x, y) != Order::Equal);
        assert(key_order(y, x) == key_order(x, y).flipped());
    }
    assert forall|k: int, l: int| 0 <= k < l < desc.len() implies #[trigger] key_order(
        sort_key(desc[k], sort),
        sort_key(desc[l], sort),
    ) == Order::Greater by {
        let x = sort_key(desc[k], sort);
        let y = sort_key(desc[l], sort);
        assert(entry_order(desc[k], desc[l], sort, true) != Order::Greater);
        assert(key_order(x, y) != Order::Equal);
    }
    assert forall|k: int| 0 <= k < r.len() implies #[trigger] desc.contains(r[k]) by {
        let j = p[n - 1 - k];
        assert(r[k] == input[j]);
        assert(reaches(q, j));
        let l = choose|l: int| 0 <= l < q.len() && #[trigger] q[l] == j;
        assert(desc[l] == input[j]);
    }
    assert forall|k: int| 0 <= k < desc.len() implies #[trigger] r.contains(desc[k]) by {
        let j = q[k];
        assert(desc[k] == input[j]);
        assert(reaches(p, j));
        let l = choose|l: int| 0 <= l < p.len() && #[trigger] p[l] == j;
        assert(asc[l] == input[j]);
        assert(r[n - 1 - l] == asc[l]);
    }
    lemma_descending_unique(desc, r, sort);
}

/// `a` was modified later than `b`.
pub open spec fn newer(a: FileTime, b: FileTime) -> bool {
    a.secs > b.secs || (a.secs == b.secs && a.nanos > b.nanos)
}

/// Sorted by time (`-t`), no entry is newer than one before it, and
/// entries of the same time are in name order.
pub proof fn lemma_time_sort_newest_first(s: Seq<EntryInfo>)
    requires
        sorted_by(s, Sort::Time, false),
    ensures
        forall|i: int, j: int|
            #![trigger s[i], s[j]]
            0 <= i < j < s.len() ==> !newer(s[j].modified_at, s[i].modified_at) && (
            s[j].modified_at == s[i].modified_at ==> !bytes_lt(s[j].name@, s[i].name@)),
{
    lemma_bytes_order_laws();
    assert forall|i: int, j: int|
        #![trigger s[i], s[j]]
        0 <= i < j < s.len() implies !newer(
        s[j].modified_at,
        s[i].modified_at,
    ) && (s[j].modified_at == s[i].modified_at ==> !bytes_lt(s[j].name@, s[i].name@)) by {
        assert(entry_order(s[i], s[j], Sort::Time, false) != Order::Greater);
    }
}

/// Sorted by size (`-S`), no entry is larger than one before it, and
/// entries of the same size are in name order.
pub proof fn lemma_size_sort_largest_first(s: Seq<EntryInfo>)
    requires
        sorted_by(s, Sort::Size, false),
    ensures
        forall|i: int, j: int|
            #![trigger s[i], s[j]]
            0 <= i < j < s.len() ==> s[j].size <= s[i].size && (s[j].size == s[i].size
                ==> !bytes_lt(s[j].name@, s[i].name@)),
{
    lemma_bytes_order_laws();
    assert forall|i: int, j: int|
        #![trigger s[i], s[j]]
        0 <= i < j < s.len() implies s[j].size <= s[i].size && (
    s[j].size == s[i].size ==> !bytes_lt(s[j].name@, s[i].name@)) by {
        assert(entry_order(s[i], s[j], Sort::Size, false) != Order::Greater);
    }
}

/// Sorted by default, names are in byte order; reversed (`-r`), in the
/// opposite order.
pub proof fn lemma_name_sort_order(s: Seq<EntryInfo>, reverse: bool)
    requires
        sorted_by(s, Sort::Default, reverse),
    ensures
        forall|i: int, j: int|
            #![trigger s[i], s[j]]
            0 <= i < j < s.len() ==> if reverse {
                !bytes_lt(s[i].name@, s[j].name@)
            } else {
                !bytes_lt(s[j].name@, s[i].name@)
            },
{
    lemma_bytes_order_laws();
    assert forall|i: int, j: int|
        #![trigger s[i], s[j]]
        0 <= i < j < s.len() implies if reverse {
        !bytes_lt(s[i].name@, s[j].name@)
    } else {
        !bytes_lt(s[j].name@, s[i].name@)
    } by {
        assert(entry_order(s[i], s[j], Sort::Default, reverse) != Order::Greater);
    }
}

/// A one-to-one, increasing choice of `n` positions below `n` takes each
/// position in turn.
proof fn lemma_increasing_is_identity(p: Seq<int>, n: int)
    requires
        p.len() == n,
        forall|k: int| 0 <= k < n ==> 0 <= #[trigger] p[k] < n,
        forall|k: int, l: int| 0 <= k < l < n ==> #[trigger] p[k] < #[trigger] p[l],
    ensures
        forall|k: int| 0 <= k < n ==> #[trigger] p[k] == k,
    decreases n,
{
    if n > 0 {
        let q = p.drop_last();
        assert forall|k: int| 0 <= k < n - 1 implies 0 <= #[trigger] q[k] < n - 1 by {
            assert(p[k] < p[n - 1]);
        }
        assert forall|k: int, l: int| 0 <= k < l < n - 1 implies #[trigger] q[k] < #[trigger] q[l] by {
            assert(p[k] < p[l]);
        }
        lemma_increasing_is_identity(q, n - 1);
        if n > 1 {
            assert(q[n - 2] == n - 2);
            assert(p[n - 2] < p[n - 1]);
        }
        assert forall|k: int| 0 <= k < n implies #[trigger] p[k] == k by {
            if k < n - 1 {
                assert(q[k] == k);
            }
        }
    }
}

/// Unsorted (`-f`), sorting leaves the entries in the order they came in,
/// reversed or not.
pub proof fn lemma_unsorted_keeps_order(input: Seq<EntryInfo>, output: Seq<EntryInfo>, reverse: bool)
    requires
        is_stable_sort_of(input, output, Sort::Unsorted, reverse),
    ensures
        output == input,
{
    let p = choose|p: Seq<int>| stable_permutation(input, output, p, Sort::Unsorted, reverse);
    let n = input.len() as int;
    assert forall|k: int, l: int| 0 <= k < l < n implies #[trigger] p[k] < #[trigger] p[l] by {
        assert(entry_order(output[k], output[l], Sort::Unsorted, reverse) == Order::Equal);
    }
    lemma_increasing_is_identity(p, n);
    assert forall|k: int| 0 <= k < n implies #[trigger] output[k] == input[k] by {
        assert(p[k] == k);
    }
    assert(output =~= input);
}

} // verus!

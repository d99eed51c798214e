//! Laying names out in columns: how many fit the terminal and how the
//! rows are written.

use vstd::prelude::*;
use crate::bytes::{push_all, push_spaces, spaces};
use crate::entry::EntryInfo;
use crate::system::terminal_width;

verus! {

/// The names of the entries.
pub open spec fn names(entries: Seq<EntryInfo>) -> Seq<Seq<u8>> {
    entries.map_values(|e: EntryInfo| e.name@)
}

/// `n / c` rounded up.
pub open spec fn ceil_div(n: int, c: int) -> int {
    if n % c == 0 {
        n / c
    } else {
        n / c + 1
    }
}

/// `a - b`, or 0 where `b` is larger.
pub open spec fn sat_sub(a: int, b: int) -> nat {
    if a > b {
        (a - b) as nat
    } else {
        0
    }
}

/// The cell in row `row` and column `col` of a layout with `rows` rows,
/// names running down the columns: the name, and unless the column is the
/// last, spaces up to two past the column's width. Empty past the last name.
pub open spec fn cell(
    names: Seq<Seq<u8>>,
    widths: Seq<usize>,
    rows: int,
    row: int,
    col: int,
) -> Seq<u8> {
    let idx = col * rows + row;
    if idx >= names.len() {
        Seq::empty()
    } else if col < widths.len() - 1 {
        names[idx] + spaces(sat_sub(widths[col] as int, names[idx].len() as int) + 2)
    } else {
        names[idx]
    }
}

/// The first `k` cells of a row.
pub open spec fn cells(
    names: Seq<Seq<u8>>,
    widths: Seq<usize>,
    rows: int,
    row: int,
    k: int,
) -> Seq<u8>
    decreases k,
{
    if k <= 0 {
        Seq::empty()
    } else {
        cells(names, widths, rows, row, k - 1) + cell(names, widths, rows, row, k - 1)
    }
}

/// The first `r` rows of the layout, each ended by a newline.
pub open spec fn rows_spec(names: Seq<Seq<u8>>, widths: Seq<usize>, rows: int, r: int) -> Seq<
    u8,
>
    decreases r,
{
    if r <= 0 {
        Seq::empty()
    } else {
        rows_spec(names, widths, rows, r - 1) + cells(names, widths, rows, r - 1, widths.len() as int)
            + seq![10u8]
    }
}

/// The names laid out in as many columns as `widths` has, filled top to
/// bottom and then left to right, in as few rows as that allows.
pub open spec fn columns_spec(names: Seq<Seq<u8>>, widths: Seq<usize>) -> Seq<u8> {
    let rows = ceil_div(names.len() as int, widths.len() as int);
    rows_spec(names, widths, rows, rows)
}

proof fn lemma_ceil_div(n: int, c: int)
    requires
        0 <= n,
        0 < c,
    ensures
        0 <= ceil_div(n, c) <= n + 1,
        c * ceil_div(n, c) >= n,
        c * ceil_div(n, c) < n + c,
        n > 0 ==> ceil_div(n, c) >= 1,
        c <= n ==> ceil_div(n, c) <= n,
{
    assert(n == c * (n / c) + n % c) by (nonlinear_arith)
        requires
            0 < c,
    ;
    assert(0 <= n % c < c) by (nonlinear_arith)
        requires
            0 < c,
    ;
    assert(n / c <= n) by (nonlinear_arith)
        requires
            0 < c,
            0 <= n,
    ;
    assert(0 <= n / c) by (nonlinear_arith)
        requires
            0 < c,
            0 <= n,
    ;
    assert(c * (n / c + 1) == c * (n / c) + c) by (nonlinear_arith);
    if c <= n && n % c != 0 {
        assert(n / c < n) by (nonlinear_arith)
            requires
                0 < c,
                c <= n,
                n % c != 0,
                n == c * (n / c) + n % c,
        ;
    }
    if n > 0 && n % c == 0 {
        assert(n / c >= 1) by (nonlinear_arith)
            requires
                0 < c,
                0 < n,
                n % c == 0,
                n == c * (n / c) + n % c,
        ;
    }
}

fn rows_for(n: usize, c: usize) -> (rows: usize)
    requires
        c > 0,
    ensures
        rows == ceil_div(n as int, c as int),
{
    if n % c == 0 {
        n / c
    } else {
        assert(c > 1);
        assert(n / c < n) by (nonlinear_arith)
            requires
                c > 1,
                n % c != 0,
        ;
        n / c + 1
    }
}

/// Writes the entries' names in columns of the given widths.
pub fn write_columns(out: &mut Vec<u8>, entries: &[EntryInfo], col_widths: &[usize])
    requires
        col_widths@.len() > 0,
        forall|k: int| 0 <= k < col_widths@.len() - 1 ==> #[trigger] col_widths@[k] + 2 <= usize::MAX,
    ensures
        final(out)@ == old(out)@ + columns_spec(names(entries@), col_widths@),
{
    let ghost start = out@;
    let ghost ns = names(entries@);
    let n = entries.len();
    let cols_count = col_widths.len();
    let rows_count = rows_for(n, cols_count);
    proof {
        lemma_ceil_div(n as int, cols_count as int);
    }
    let mut row: usize = 0;
    while row < rows_count
        invariant
            row <= rows_count,
            n == entries@.len(),
            ns == names(entries@),
            cols_count == col_widths@.len(),
            cols_count > 0,
            rows_count == ceil_div(n as int, cols_count as int),
            rows_count <= n + 1,
            forall|k: int| 0 <= k < col_widths@.len() - 1 ==> #[trigger] col_widths@[k] + 2 <= usize::MAX,
            out@ == start + rows_spec(ns, col_widths@, rows_count as int, row as int),
        decreases rows_count - row,
    {
        let ghost row_start = out@;
        let mut col: usize = 0;
        let mut idx: usize = row;
        let mut live: bool = row < n;
        while col < cols_count
            invariant
                col <= cols_count,
                row < rows_count,
                n == entries@.len(),
                ns == names(entries@),
                cols_count == col_widths@.len(),
                rows_count == ceil_div(n as int, cols_count as int),
                forall|k: int| 0 <= k < col_widths@.len() - 1 ==> #[trigger] col_widths@[k] + 2 <= usize::MAX,
                live <==> col * rows_count + row < n,
                live ==> idx == col * rows_count + row,
                out@ == row_start + cells(ns, col_widths@, rows_count as int, row as int, col as int),
            decreases cols_count - col,
        {
            let ghost before = out@;
            proof {
                assert((col + 1) * rows_count == col * rows_count + rows_count) by (nonlinear_arith);
            }
            if live {
                let name = &entries[idx].name;
                push_all(out, name.as_slice());
                if col < cols_count - 1 {
                    let w = col_widths[col];
                    let pad: usize = if w > name.len() { w - name.len() } else { 0 };
                    push_spaces(out, pad + 2);
                }
                if n - idx > rows_count {
                    idx = idx + rows_count;
                } else {
                    live = false;
                }
            } else {
                proof {
                    assert(col * rows_count + row >= n);
                }
            }
            proof {
                assert(out@ =~= before + cell(ns, col_widths@, rows_count as int, row as int, col as int));
            }
            col = col + 1;
            proof {
                if !live {
                    assert(col * rows_count + row >= n);
                }
            }
        }
        out.push(10u8);
        row = row + 1;
        proof {
            assert(out@ =~= start + rows_spec(ns, col_widths@, rows_count as int, row as int));
        }
    }
}

/// The length of the longest of `names[lo..hi]`, or 0 where there is none.
pub open spec fn range_max(names: Seq<Seq<u8>>, lo: int, hi: int) -> nat
    decreases hi - lo,
{
    if hi <= lo {
        0
    } else {
        let m = range_max(names, lo, hi - 1);
        if names[hi - 1].len() > m {
            names[hi - 1].len()
        } else {
            m
        }
    }
}

/// The width of column `j` when the names fill `c` columns: the longest
/// name that falls into it.
pub open spec fn column_width(names: Seq<Seq<u8>>, c: int, j: int) -> nat {
    let rows = ceil_div(names.len() as int, c);
    let lo = j * rows;
    let hi = if (j + 1) * rows < names.len() {
        (j + 1) * rows
    } else {
        names.len() as int
    };
    range_max(names, lo, hi)
}

pub open spec fn column_widths(names: Seq<Seq<u8>>, c: int) -> Seq<nat> {
    Seq::new(c as nat, |j: int| column_width(names, c, j))
}

pub open spec fn sum_widths(ws: Seq<nat>) -> nat
    decreases ws.len(),
{
    if ws.len() == 0 {
        0
    } else {
        sum_widths(ws.drop_last()) + ws.last()
    }
}

/// The width of a layout in `c` columns: the columns and two spaces
/// between each two of them.
pub open spec fn layout_width(names: Seq<Seq<u8>>, c: int) -> nat {
    sum_widths(column_widths(names, c)) + 2 * sat_sub(c, 1)
}

/// `ws` without its zeros.
pub open spec fn drop_zeros(ws: Seq<nat>) -> Seq<nat>
    decreases ws.len(),
{
    if ws.len() == 0 {
        Seq::empty()
    } else if ws.last() == 0 {
        drop_zeros(ws.drop_last())
    } else {
        drop_zeros(ws.drop_last()).push(ws.last())
    }
}

/// The most columns, from `c` down to two, whose layout fits in `term`
/// columns, given by the widths of its non-empty columns; `None` where no
/// count above one fits.
pub open spec fn fit_columns(names: Seq<Seq<u8>>, c: int, term: int) -> Option<Seq<nat>>
    decreases c,
{
    if c <= 1 {
        None
    } else if layout_width(names, c) <= term {
        Some(drop_zeros(column_widths(names, c)))
    } else {
        fit_columns(names, c - 1, term)
    }
}

pub open spec fn widths_as_nat(ws: Seq<usize>) -> Seq<nat> {
    ws.map_values(|w: usize| w as nat)
}

proof fn lemma_drop_zeros_nonempty(ws: Seq<nat>, k: int)
    requires
        0 <= k < ws.len(),
        ws[k] > 0,
    ensures
        drop_zeros(ws).len() > 0,
    decreases ws.len(),
{
    if k < ws.len() - 1 {
        lemma_drop_zeros_nonempty(ws.drop_last(), k);
    }
}

proof fn lemma_range_max_ge(names: Seq<Seq<u8>>, lo: int, hi: int, i: int)
    requires
        lo <= i < hi,
    ensures
        range_max(names, lo, hi) >= names[i].len(),
    decreases hi - lo,
{
    if i < hi - 1 {
        lemma_range_max_ge(names, lo, hi - 1, i);
    }
}

/// The longest of `entries[lo..hi]`'s names.
fn longest_name(entries: &[EntryInfo], lo: usize, hi: usize) -> (m: usize)
    requires
        lo <= hi <= entries@.len(),
    ensures
        m == range_max(names(entries@), lo as int, hi as int),
{
    let mut m: usize = 0;
    let mut i: usize = lo;
    while i < hi
        invariant
            lo <= i <= hi,
            hi <= entries@.len(),
            m == range_max(names(entries@), lo as int, i as int),
        decreases hi - i,
    {
        let len = entries[i].name.len();
        if len > m {
            m = len;
        }
        i = i + 1;
    }
    m
}

/// The widths of the non-empty columns of the widest layout, from as many
/// columns as there are entries down to two, that fits in `term_width`;
/// `None` where none does.
pub fn columns_for_width(entries: &[EntryInfo], term_width: u16) -> (r: Option<Vec<usize>>)
    ensures
        match r {
            Some(v) => fit_columns(names(entries@), entries@.len() as int, term_width as int)
                == Some(widths_as_nat(v@)),
            None => fit_columns(names(entries@), entries@.len() as int, term_width as int)
                is None,
        },
        r matches Some(v) ==> ((exists|i: int|
            0 <= i < entries@.len() && #[trigger] entries@[i].name@.len() > 0) ==> v@.len() > 0),
{
    let ghost ns = names(entries@);
    let n = entries.len();
    let mut col_count: usize = n;
    while col_count > 1
        invariant
            col_count <= n,
            n == entries@.len(),
            ns == names(entries@),
            fit_columns(ns, n as int, term_width as int) == fit_columns(
                ns,
                col_count as int,
                term_width as int,
            ),
        decreases col_count,
    {
        let rows_count = rows_for(n, col_count);
        proof {
            lemma_ceil_div(n as int, col_count as int);
        }
        let mut col_widths: Vec<usize> = Vec::new();
        let mut lo: usize = 0;
        let mut j: usize = 0;
        let ghost mut any_nonzero: bool = false;
        while j < col_count
            invariant
                j <= col_count,
                col_count <= n,
                col_count > 1,
                n == entries@.len(),
                ns == names(entries@),
                rows_count == ceil_div(n as int, col_count as int),
                rows_count <= n,
                col_count * rows_count >= n,
                lo == (if j * rows_count < n { j * rows_count } else { n as int }),
                col_widths@.len() == j,
                forall|k: int| 0 <= k < j ==> #[trigger] col_widths@[k] == column_width(
                    ns,
                    col_count as int,
                    k,
                ),
                (exists|i: int| 0 <= i < lo && #[trigger] ns[i].len() > 0) ==> exists|k: int|
                    0 <= k < j && #[trigger] col_widths@[k] > 0,
            decreases col_count - j,
        {
            proof {
                assert((j + 1) * rows_count == j * rows_count + rows_count) by (nonlinear_arith);
            }
            let hi: usize = if n - lo < rows_count { n } else { lo + rows_count };
            let w = longest_name(entries, lo, hi);
            proof {
                if exists|i: int| 0 <= i < hi && #[trigger] ns[i].len() > 0 {
                    let i = choose|i: int| 0 <= i < hi && #[trigger] ns[i].len() > 0;
                    if i >= lo {
                        lemma_range_max_ge(ns, lo as int, hi as int, i);
                        assert(col_widths@.push(w)[j as int] > 0);
                    } else {
                        let k = choose|k: int| 0 <= k < j && #[trigger] col_widths@[k] > 0;
                        assert(col_widths@.push(w)[k] > 0);
                    }
                }
            }
            col_widths.push(w);
            lo = hi;
            j = j + 1;
        }
        proof {
            assert(col_widths@ =~= column_widths(ns, col_count as int).map_values(|w: nat| w as usize));
        }
        let mut total: usize = 0;
        let mut k: usize = 0;
        while k < col_count
            invariant
                k <= col_count,
                col_widths@.len() == col_count,
                forall|m: int| 0 <= m < col_count ==> #[trigger] col_widths@[m] == column_width(
                    ns,
                    col_count as int,
                    m,
                ),
                total == (if sum_widths(column_widths(ns, col_count as int).subrange(0, k as int))
                    <= usize::MAX {
                    sum_widths(column_widths(ns, col_count as int).subrange(0, k as int))
                } else {
                    usize::MAX as nat
                }),
            decreases col_count - k,
        {
            proof {
                assert(column_widths(ns, col_count as int).subrange(0, k + 1).drop_last()
                    =~= column_widths(ns, col_count as int).subrange(0, k as int));
            }
            total = total.saturating_add(col_widths[k]);
            k = k + 1;
        }
        proof {
            assert(column_widths(ns, col_count as int).subrange(0, k as int) =~= column_widths(
                ns,
                col_count as int,
            ));
        }
        let gaps: usize = if col_count - 1 > usize::MAX / 2 { usize::MAX } else { 2 * (col_count - 1) };
        let total_width = total.saturating_add(gaps);
        if total_width <= term_width as usize {
            let mut kept: Vec<usize> = Vec::new();
            let mut m: usize = 0;
            while m < col_count
                invariant
                    m <= col_count,
                    col_widths@.len() == col_count,
                    forall|q: int| 0 <= q < col_count ==> #[trigger] col_widths@[q] == column_width(
                        ns,
                        col_count as int,
                        q,
                    ),
                    widths_as_nat(kept@) == drop_zeros(
                        column_widths(ns, col_count as int).subrange(0, m as int),
                    ),
                decreases col_count - m,
            {
                proof {
                    assert(column_widths(ns, col_count as int).subrange(0, m + 1).drop_last()
                        =~= column_widths(ns, col_count as int).subrange(0, m as int));
                }
                if col_widths[m] != 0 {
                    kept.push(col_widths[m]);
                }
                proof {
                    assert(widths_as_nat(kept@) =~= drop_zeros(
                        column_widths(ns, col_count as int).subrange(0, m + 1),
                    ));
                }
                m = m + 1;
            }
            proof {
                assert(column_widths(ns, col_count as int).subrange(0, m as int) =~= column_widths(
                    ns,
                    col_count as int,
                ));
                if exists|i: int| 0 <= i < entries@.len() && #[trigger] entries@[i].name@.len() > 0 {
                    let i = choose|i: int|
                        0 <= i < entries@.len() && #[trigger] entries@[i].name@.len() > 0;
                    assert(ns[i].len() > 0);
                    let q = choose|q: int| 0 <= q < col_count && #[trigger] col_widths@[q] > 0;
                    assert(column_widths(ns, col_count as int)[q] > 0);
                    lemma_drop_zeros_nonempty(column_widths(ns, col_count as int), q);
                }
            }
            return Some(kept);
        }
        col_count = col_count - 1;
    }
    None
}

/// The column widths for the terminal the listing is shown on: those of
/// the widest layout that fits it, or `None` where there is no terminal or
/// no layout of two or more columns fits.
pub fn calculate_columns_widths(entries: &[EntryInfo]) -> (r: Option<Vec<usize>>)
    ensures
        r matches Some(v) ==> exists|term: int|
            0 <= term <= u16::MAX && fit_columns(names(entries@), entries@.len() as int, term)
                == Some(widths_as_nat(v@)),
        r matches Some(v) ==> ((exists|i: int|
            0 <= i < entries@.len() && #[trigger] entries@[i].name@.len() > 0) ==> v@.len() > 0),
        entries@.len() <= 1 ==> r is None,
{
    match terminal_width() {
        Some(term_width) => columns_for_width(entries, term_width),
        None => None,
    }
}

/// The entries can be laid out in columns: each name's length leaves room
/// for two spaces of padding.
pub open spec fn columns_ok(entries: Seq<EntryInfo>) -> bool {
    forall|i: int| 0 <= i < entries.len() ==> #[trigger] entries[i].name@.len() + 2 <= usize::MAX
}

/// `widths` is a layout of at least one column that fits some terminal
/// width.
pub open spec fn column_choice(entries: Seq<EntryInfo>, widths: Seq<usize>) -> bool {
    &&& widths.len() > 0
    &&& exists|term: int|
        0 <= term <= u16::MAX && fit_columns(names(entries), entries.len() as int, term)
            == Some(widths_as_nat(widths))
}

proof fn lemma_range_max_bound(names: Seq<Seq<u8>>, lo: int, hi: int, bound: int)
    requires
        0 <= lo,
        hi <= names.len(),
        forall|i: int| 0 <= i < names.len() ==> #[trigger] names[i].len() <= bound,
        bound >= 0,
    ensures
        range_max(names, lo, hi) <= bound,
    decreases hi - lo,
{
    if hi > lo {
        lemma_range_max_bound(names, lo, hi - 1, bound);
    }
}

proof fn lemma_drop_zeros_members(ws: Seq<nat>, bound: int)
    requires
        forall|i: int| 0 <= i < ws.len() ==> #[trigger] ws[i] <= bound,
    ensures
        forall|i: int| 0 <= i < drop_zeros(ws).len() ==> #[trigger] drop_zeros(ws)[i] <= bound,
    decreases ws.len(),
{
    if ws.len() > 0 {
        lemma_drop_zeros_members(ws.drop_last(), bound);
        let prev = drop_zeros(ws.drop_last());
        assert forall|i: int| 0 <= i < drop_zeros(ws).len() implies #[trigger] drop_zeros(ws)[i]
            <= bound by {
            if i < prev.len() {
                assert(prev[i] <= bound);
            }
        }
    }
}

pub(crate) proof fn lemma_fit_bound(names: Seq<Seq<u8>>, c: int, term: int, bound: int, ws: Seq<nat>)
    requires
        forall|i: int| 0 <= i < names.len() ==> #[trigger] names[i].len() <= bound,
        bound >= 0,
        fit_columns(names, c, term) == Some(ws),
    ensures
        forall|i: int| 0 <= i < ws.len() ==> #[trigger] ws[i] <= bound,
    decreases c,
{
    if c > 1 {
        if layout_width(names, c) <= term {
            let all = column_widths(names, c);
            assert forall|j: int| 0 <= j < all.len() implies #[trigger] all[j] <= bound by {
                let rows = ceil_div(names.len() as int, c);
                lemma_ceil_div(names.len() as int, c);
                assert(j * rows >= 0) by (nonlinear_arith)
                    requires
                        0 <= j,
                        0 <= rows,
                ;
                let lo = j * rows;
                let hi = if (j + 1) * rows < names.len() {
                    (j + 1) * rows
                } else {
                    names.len() as int
                };
                lemma_range_max_bound(names, lo, hi, bound);
            }
            lemma_drop_zeros_members(all, bound);
        } else {
            lemma_fit_bound(names, c - 1, term, bound, ws);
        }
    }
}

proof fn lemma_drop_zeros_sum(ws: Seq<nat>)
    ensures
        sum_widths(drop_zeros(ws)) == sum_widths(ws),
        drop_zeros(ws).len() <= ws.len(),
    decreases ws.len(),
{
    if ws.len() > 0 {
        lemma_drop_zeros_sum(ws.drop_last());
        if ws.last() != 0 {
            assert(drop_zeros(ws).drop_last() =~= drop_zeros(ws.drop_last()));
        }
    }
}

/// The columns chosen for a terminal fit on it: their widths, with two
/// spaces between each two columns, add up to no more than its width.
pub proof fn lemma_fit_columns_fit(names: Seq<Seq<u8>>, c: int, term: int, ws: Seq<nat>)
    requires
        fit_columns(names, c, term) == Some(ws),
    ensures
        sum_widths(ws) + 2 * sat_sub(ws.len() as int, 1) <= term,
        ws.len() <= c,
        forall|i: int| 0 <= i < ws.len() ==> #[trigger] ws[i] > 0,
    decreases c,
{
    if c > 1 {
        if layout_width(names, c) <= term {
            lemma_drop_zeros_sum(column_widths(names, c));
            lemma_drop_zeros_positive(column_widths(names, c));
        } else {
            lemma_fit_columns_fit(names, c - 1, term, ws);
        }
    }
}

proof fn lemma_drop_zeros_positive(ws: Seq<nat>)
    ensures
        forall|i: int| 0 <= i < drop_zeros(ws).len() ==> #[trigger] drop_zeros(ws)[i] > 0,
    decreases ws.len(),
{
    if ws.len() > 0 {
        lemma_drop_zeros_positive(ws.drop_last());
        let prev = drop_zeros(ws.drop_last());
        assert forall|i: int| 0 <= i < drop_zeros(ws).len() implies #[trigger] drop_zeros(ws)[i]
            > 0 by {
            if i < prev.len() {
                assert(prev[i] > 0);
            }
        }
    }
}

/// In a column layout every name has its place: name `i` is the cell in row
/// `i % rows` and column `i / rows`, and that column is one of the layout's.
pub proof fn lemma_every_name_placed(names: Seq<Seq<u8>>, widths: Seq<usize>, i: int)
    requires
        widths.len() > 0,
        0 <= i < names.len(),
    ensures
        ({
            let rows = ceil_div(names.len() as int, widths.len() as int);
            &&& 0 <= i % rows < rows
            &&& 0 <= i / rows < widths.len()
            &&& cell(names, widths, rows, i % rows, i / rows).subrange(0, names[i].len() as int)
                == names[i]
        }),
{
    let n = names.len() as int;
    let c = widths.len() as int;
    let rows = ceil_div(n, c);
    lemma_ceil_div(n, c);
    assert(rows >= 1);
    assert(i == (i / rows) * rows + i % rows && 0 <= i % rows < rows) by (nonlinear_arith)
        requires
            rows >= 1,
            0 <= i,
    ;
    assert(i / rows < c) by (nonlinear_arith)
        requires
            rows >= 1,
            0 <= i < n,
            c * rows >= n,
            c > 0,
            i == (i / rows) * rows + i % rows,
            0 <= i % rows,
    ;
    assert(0 <= i / rows) by (nonlinear_arith)
        requires
            rows >= 1,
            0 <= i,
    ;
    let col = i / rows;
    let row = i % rows;
    assert(col * rows + row == i);
    let x = cell(names, widths, rows, row, col);
    if col < c - 1 {
        assert(x.subrange(0, names[i].len() as int) =~= names[i]);
    } else {
        assert(x =~= names[i]);
    }
}

} // verus!

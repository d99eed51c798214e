//! Byte strings: ordering, decimal rendering, display width and padding.

use vstd::prelude::*;

verus! {

/// The outcome of a three-way comparison.
#[derive(PartialEq, Eq, Structural, Clone, Copy, Debug)]
pub enum Order {
    Less,
    Equal,
    Greater,
}

impl Order {
    /// The opposite outcome: `Less` and `Greater` swap, `Equal` stays.
    pub open spec fn flipped(self) -> Order {
        match self {
            Order::Less => Order::Greater,
            Order::Equal => Order::Equal,
            Order::Greater => Order::Less,
        }
    }

    pub fn reverse(self) -> (r: Order)
        ensures
            r == self.flipped(),
    {
        match self {
            Order::Less => Order::Greater,
            Order::Equal => Order::Equal,
            Order::Greater => Order::Less,
        }
    }
}

/// Lexicographic "less than" on byte strings, looking from position `i` on,
/// given that the two strings agree before `i`.
pub open spec fn lex_lt_from(a: Seq<u8>, b: Seq<u8>, i: int) -> bool
    decreases a.len() - i,
{
    if i < 0 || i >= a.len() {
        i >= 0 && i < b.len()
    } else if i >= b.len() {
        false
    } else if a[i] < b[i] {
        true
    } else if a[i] > b[i] {
        false
    } else {
        lex_lt_from(a, b, i + 1)
    }
}

/// Lexicographic order on byte strings, as Rust orders `[u8]`: the first
/// differing byte decides, and a proper prefix comes first.
pub open spec fn bytes_lt(a: Seq<u8>, b: Seq<u8>) -> bool {
    lex_lt_from(a, b, 0)
}

pub open spec fn bytes_order(a: Seq<u8>, b: Seq<u8>) -> Order {
    if a == b {
        Order::Equal
    } else if bytes_lt(a, b) {
        Order::Less
    } else {
        Order::Greater
    }
}

proof fn lemma_lex_irreflexive_from(a: Seq<u8>, i: int)
    requires
        0 <= i <= a.len(),
    ensures
        !lex_lt_from(a, a, i),
    decreases a.len() - i,
{
    if i < a.len() {
        lemma_lex_irreflexive_from(a, i + 1);
    }
}

proof fn lemma_lex_trans_from(a: Seq<u8>, b: Seq<u8>, c: Seq<u8>, i: int)
    requires
        0 <= i,
        lex_lt_from(a, b, i),
        lex_lt_from(b, c, i),
    ensures
        lex_lt_from(a, c, i),
    decreases a.len() - i,
{
    if i < a.len() && i < b.len() && i < c.len() && a[i] == b[i] && b[i] == c[i] {
        lemma_lex_trans_from(a, b, c, i + 1);
    }
}

proof fn lemma_lex_total_from(a: Seq<u8>, b: Seq<u8>, i: int)
    requires
        0 <= i <= a.len(),
        i <= b.len(),
        forall|k: int| 0 <= k < i ==> a[k] == b[k],
    ensures
        a == b || lex_lt_from(a, b, i) || lex_lt_from(b, a, i),
    decreases a.len() - i,
{
    if i == a.len() || i == b.len() {
        if a.len() == b.len() {
            assert(a =~= b);
        }
    } else if a[i] == b[i] {
        lemma_lex_total_from(a, b, i + 1);
    }
}

proof fn lemma_lex_asym_from(a: Seq<u8>, b: Seq<u8>, i: int)
    requires
        0 <= i,
        lex_lt_from(a, b, i),
    ensures
        !lex_lt_from(b, a, i),
    decreases a.len() - i,
{
    if i < a.len() && i < b.len() && a[i] == b[i] {
        lemma_lex_asym_from(a, b, i + 1);
    }
}

/// The byte order is a strict total order.
pub proof fn lemma_bytes_order_laws()
    ensures
        forall|a: Seq<u8>| !bytes_lt(a, a),
        forall|a: Seq<u8>, b: Seq<u8>| bytes_lt(a, b) ==> !bytes_lt(b, a),
        forall|a: Seq<u8>, b: Seq<u8>, c: Seq<u8>|
            bytes_lt(a, b) && bytes_lt(b, c) ==> bytes_lt(a, c),
        forall|a: Seq<u8>, b: Seq<u8>| a == b || bytes_lt(a, b) || bytes_lt(b, a),
{
    assert forall|a: Seq<u8>| !bytes_lt(a, a) by {
        lemma_lex_irreflexive_from(a, 0);
    }
    assert forall|a: Seq<u8>, b: Seq<u8>| bytes_lt(a, b) implies !bytes_lt(b, a) by {
        lemma_lex_asym_from(a, b, 0);
    }
    assert forall|a: Seq<u8>, b: Seq<u8>, c: Seq<u8>|
        bytes_lt(a, b) && bytes_lt(b, c) implies bytes_lt(a, c) by {
        lemma_lex_trans_from(a, b, c, 0);
    }
    assert forall|a: Seq<u8>, b: Seq<u8>| a == b || bytes_lt(a, b) || bytes_lt(b, a) by {
        lemma_lex_total_from(a, b, 0);
    }
}

/// Three-way lexicographic comparison of two byte strings.
pub fn compare_bytes(a: &[u8], b: &[u8]) -> (r: Order)
    ensures
        r == bytes_order(a@, b@),
{
    let mut i: usize = 0;
    while i < a.len() && i < b.len()
        invariant
            i <= a@.len(),
            i <= b@.len(),
            forall|k: int| 0 <= k < i ==> a@[k] == b@[k],
            bytes_lt(a@, b@) == lex_lt_from(a@, b@, i as int),
            bytes_lt(b@, a@) == lex_lt_from(b@, a@, i as int),
        decreases a.len() - i,
    {
        if a[i] != b[i] {
            proof {
                lemma_bytes_order_laws();
            }
            if a[i] < b[i] {
                return Order::Less;
            } else {
                return Order::Greater;
            }
        }
        i = i + 1;
    }
    proof {
        lemma_lex_total_from(a@, b@, i as int);
        lemma_bytes_order_laws();
    }
    if a.len() == b.len() {
        assert(a@ =~= b@);
        Order::Equal
    } else if a.len() < b.len() {
        Order::Less
    } else {
        Order::Greater
    }
}

/// The decimal digits of `n`, most significant first, with no leading zeros.
pub open spec fn decimal_spec(n: nat) -> Seq<u8>
    decreases n,
{
    if n < 10 {
        seq![(48 + n) as u8]
    } else {
        decimal_spec(n / 10).push((48 + n % 10) as u8)
    }
}

/// Renders `n` in decimal, as `to_string` does for unsigned integers.
pub fn decimal(n: u64) -> (r: Vec<u8>)
    ensures
        r@ == decimal_spec(n as nat),
    decreases n,
{
    if n < 10 {
        let mut v: Vec<u8> = Vec::new();
        v.push(48u8 + n as u8);
        proof {
            assert(v@ =~= decimal_spec(n as nat));
        }
        v
    } else {
        let mut v = decimal(n / 10);
        v.push(48u8 + (n % 10) as u8);
        v
    }
}

/// Whether a byte continues a multi-byte UTF-8 sequence (`10xxxxxx`).
pub open spec fn is_continuation(b: u8) -> bool {
    128 <= b < 192
}

/// The number of characters a UTF-8 byte string encodes: its bytes that are
/// not continuation bytes. This is the width that `{:>w$}` pads to.
pub open spec fn char_count(s: Seq<u8>) -> nat
    decreases s.len(),
{
    if s.len() == 0 {
        0
    } else {
        char_count(s.drop_last()) + if is_continuation(s.last()) {
            0nat
        } else {
            1nat
        }
    }
}

/// Counts the characters of a UTF-8 byte string.
pub fn count_chars(s: &[u8]) -> (n: usize)
    ensures
        n == char_count(s@),
{
    let mut n: usize = 0;
    let mut i: usize = 0;
    while i < s.len()
        invariant
            i <= s@.len(),
            n == char_count(s@.subrange(0, i as int)),
            n <= i,
        decreases s.len() - i,
    {
        proof {
            assert(s@.subrange(0, i + 1).drop_last() =~= s@.subrange(0, i as int));
        }
        if !(128 <= s[i] && s[i] < 192) {
            n = n + 1;
        }
        i = i + 1;
    }
    proof {
        assert(s@.subrange(0, i as int) =~= s@);
    }
    n
}

/// `n` spaces.
pub open spec fn spaces(n: nat) -> Seq<u8> {
    Seq::new(n, |i: int| 32u8)
}

/// How many spaces `{:w$}` adds to `s`: the shortfall of its width below `w`.
pub open spec fn fill(s: Seq<u8>, width: nat) -> nat {
    if char_count(s) < width {
        (width - char_count(s)) as nat
    } else {
        0
    }
}

/// `s` right-aligned in a field of `width` characters (`{:>width$}`).
pub open spec fn align_right(s: Seq<u8>, width: nat) -> Seq<u8> {
    spaces(fill(s, width)) + s
}

/// `s` left-aligned in a field of `width` characters (`{:<width$}`).
pub open spec fn align_left(s: Seq<u8>, width: nat) -> Seq<u8> {
    s + spaces(fill(s, width))
}

/// Appends `n` spaces.
pub fn push_spaces(out: &mut Vec<u8>, n: usize)
    ensures
        final(out)@ == old(out)@ + spaces(n as nat),
{
    let ghost start = out@;
    let mut i: usize = 0;
    while i < n
        invariant
            i <= n,
            out@ == start + spaces(i as nat),
        decreases n - i,
    {
        out.push(32u8);
        i = i + 1;
        proof {
            assert(out@ =~= start + spaces(i as nat));
        }
    }
}

/// Appends all of `s`.
pub fn push_all(out: &mut Vec<u8>, s: &[u8])
    ensures
        final(out)@ == old(out)@ + s@,
{
    let ghost start = out@;
    let mut i: usize = 0;
    while i < s.len()
        invariant
            i <= s@.len(),
            out@ == start + s@.subrange(0, i as int),
        decreases s.len() - i,
    {
        out.push(s[i]);
        i = i + 1;
        proof {
            assert(out@ =~= start + s@.subrange(0, i as int));
        }
    }
    proof {
        assert(s@.subrange(0, i as int) =~= s@);
    }
}

/// Appends `s` right-aligned in a field of `width` characters.
pub fn push_right_aligned(out: &mut Vec<u8>, s: &[u8], width: usize)
    ensures
        final(out)@ == old(out)@ + align_right(s@, width as nat),
{
    let n = count_chars(s);
    let pad: usize = if n < width { width - n } else { 0 };
    push_spaces(out, pad);
    push_all(out, s);
    proof {
        assert(out@ =~= old(out)@ + align_right(s@, width as nat));
    }
}

/// Appends `s` left-aligned in a field of `width` characters.
pub fn push_left_aligned(out: &mut Vec<u8>, s: &[u8], width: usize)
    ensures
        final(out)@ == old(out)@ + align_left(s@, width as nat),
{
    let n = count_chars(s);
    let pad: usize = if n < width { width - n } else { 0 };
    push_all(out, s);
    push_spaces(out, pad);
    proof {
        assert(out@ =~= old(out)@ + align_left(s@, width as nat));
    }
}

/// A copy of a byte string.
pub fn copy_bytes(s: &[u8]) -> (r: Vec<u8>)
    ensures
        r@ == s@,
{
    let mut r: Vec<u8> = Vec::new();
    push_all(&mut r, s);
    proof {
        assert(r@ =~= s@);
    }
    r
}

/// `name` joined onto the path `dir` as `Path::join` does on Unix: an
/// absolute `name` replaces the path; otherwise a `/` goes between them
/// unless `dir` is empty or already ends with one.
pub open spec fn join_spec(dir: Seq<u8>, name: Seq<u8>) -> Seq<u8> {
    if name.len() > 0 && name[0] == 47u8 {
        name
    } else if dir.len() > 0 && dir.last() != 47u8 {
        dir + seq![47u8] + name
    } else {
        dir + name
    }
}

/// The path of `name` inside the directory `dir`.
pub fn join_path(dir: &[u8], name: &[u8]) -> (r: Vec<u8>)
    ensures
        r@ == join_spec(dir@, name@),
{
    if name.len() > 0 && name[0] == 47u8 {
        copy_bytes(name)
    } else {
        let mut r = copy_bytes(dir);
        if dir.len() > 0 && dir[dir.len() - 1] != 47u8 {
            r.push(47u8);
        }
        push_all(&mut r, name);
        r
    }
}

} // verus!

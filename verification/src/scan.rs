//! Newline scanning over byte sequences, shared by the line index, the
//! search and the edit commands.

use vstd::prelude::*;

verus! {

/// The byte value of `'\n'`.
pub open spec fn is_nl(b: u8) -> bool {
    b == 10u8
}

/// Index of the first `'\n'` at or after `from`, if any.
pub open spec fn next_newline(d: Seq<u8>, from: int) -> Option<int>
    decreases d.len() - from,
{
    if from < 0 || from >= d.len() {
        None
    } else if is_nl(d[from]) {
        Some(from)
    } else {
        next_newline(d, from + 1)
    }
}

/// Start offset of the line that lies `k` lines after the line starting at `from`.
/// `None` when fewer than `k` newlines follow `from`.
pub open spec fn line_start_from(d: Seq<u8>, from: int, k: nat) -> Option<int>
    decreases k,
{
    if k == 0 {
        Some(from)
    } else {
        match next_newline(d, from) {
            None => None,
            Some(j) => line_start_from(d, j + 1, (k - 1) as nat),
        }
    }
}

/// `memchr::memchr` applied to `haystack[from..]`: the distance from `from` to the
/// first byte equal to `needle`, or `None` when no byte from `from` on equals it.
#[verifier::external_body]
pub(crate) fn find_byte(needle: u8, haystack: &[u8], from: usize) -> (r: Option<usize>)
    requires
        from <= haystack@.len(),
    ensures
        match r {
            Some(i) => {
                &&& from + i < haystack@.len()
                &&& haystack@[from + i] == needle
                &&& forall|j: int| from <= j < from + i ==> haystack@[j] != needle
            },
            None => forall|j: int| from <= j < haystack@.len() ==> haystack@[j] != needle,
        },
{
    memchr::memchr(needle, &haystack[from..])
}

/// A newline at `k`, with none in `[from, k)`, is the next newline after `from`.
pub proof fn lemma_next_newline_found(d: Seq<u8>, from: int, k: int)
    requires
        0 <= from <= k < d.len(),
        is_nl(d[k]),
        forall|j: int| from <= j < k ==> !is_nl(#[trigger] d[j]),
    ensures
        next_newline(d, from) == Some(k),
    decreases k - from,
{
    if from < k {
        lemma_next_newline_found(d, from + 1, k);
    }
}

/// With no newline in `[from, len)` there is no next newline.
pub proof fn lemma_next_newline_none(d: Seq<u8>, from: int)
    requires
        0 <= from,
        forall|j: int| from <= j < d.len() ==> !is_nl(#[trigger] d[j]),
    ensures
        next_newline(d, from).is_none(),
    decreases d.len() - from,
{
    if from < d.len() {
        lemma_next_newline_none(d, from + 1);
    }
}

/// Find the next newline at or after `from` in `d`.
pub fn next_newline_exec(d: &[u8], from: usize) -> (r: Option<usize>)
    requires
        from <= d@.len(),
    ensures
        match r {
            Some(j) => next_newline(d@, from as int) == Some(j as int),
            None => next_newline(d@, from as int).is_none(),
        },
{
    let n = d.len();
    match find_byte(10u8, d, from) {
        Some(i) => {
            assert(from + i < n);
            proof {
                lemma_next_newline_found(d@, from as int, from + i);
            }
            Some(from + i)
        },
        None => {
            proof {
                lemma_next_newline_none(d@, from as int);
            }
            None
        },
    }
}

/// Start offset of line `k` (0-based) of `d`: 0 for line 0, otherwise just after the
/// `k`-th newline; `None` when `d` has fewer than `k` newlines.
pub open spec fn line_start(d: Seq<u8>, k: nat) -> Option<int> {
    line_start_from(d, 0, k)
}

/// Number of `'\n'` bytes in `d`.
pub open spec fn newline_count(d: Seq<u8>) -> nat
    decreases d.len(),
{
    if d.len() == 0 {
        0
    } else {
        newline_count(d.drop_last()) + if is_nl(d.last()) {
            1nat
        } else {
            0nat
        }
    }
}

/// `d` is non-empty and does not end with a newline: its last line is unterminated.
pub open spec fn ends_mid_line(d: Seq<u8>) -> bool {
    d.len() > 0 && !is_nl(d.last())
}

/// The next newline lies at or after `from`.
pub proof fn lemma_next_newline_bounds(d: Seq<u8>, from: int)
    ensures
        next_newline(d, from) matches Some(j) ==> from <= j < d.len() && is_nl(d[j]) && forall|
            i: int,
        | from <= i < j ==> !is_nl(#[trigger] d[i]),
        from >= 0 && next_newline(d, from) is None ==> forall|i: int|
            from <= i < d.len() ==> !is_nl(#[trigger] d[i]),
    decreases d.len() - from,
{
    if 0 <= from < d.len() && !is_nl(d[from]) {
        lemma_next_newline_bounds(d, from + 1);
    }
}

/// Lines compose: `a + b` lines after `from` is `b` lines after the start `a` lines after `from`.
pub proof fn lemma_line_start_compose(d: Seq<u8>, from: int, a: nat, b: nat)
    ensures
        line_start_from(d, from, a + b) == match line_start_from(d, from, a) {
            Some(p) => line_start_from(d, p, b),
            None => None,
        },
    decreases a,
{
    if a > 0 {
        match next_newline(d, from) {
            Some(j) => {
                lemma_line_start_compose(d, j + 1, (a - 1) as nat, b);
                assert((a + b - 1) as nat == ((a - 1) as nat + b));
            },
            None => {},
        }
    }
}

/// A line start lies at or after `from`, within `d` unless it is `from` itself, and just
/// after a newline unless it is `from` itself.
pub proof fn lemma_line_start_bounds(d: Seq<u8>, from: int, k: nat)
    ensures
        line_start_from(d, from, k) matches Some(p) ==> {
            &&& from <= p
            &&& (k > 0 ==> p <= d.len() && is_nl(d[p - 1]))
            &&& (k == 0 ==> p == from)
        },
    decreases k,
{
    if k > 0 {
        lemma_next_newline_bounds(d, from);
        match next_newline(d, from) {
            Some(j) => {
                lemma_line_start_bounds(d, j + 1, (k - 1) as nat);
            },
            None => {},
        }
    }
}

/// A run without newlines does not change the count.
pub proof fn lemma_count_plain(d: Seq<u8>, a: int, b: int)
    requires
        0 <= a <= b <= d.len(),
        forall|i: int| a <= i < b ==> !is_nl(#[trigger] d[i]),
    ensures
        newline_count(d.take(b)) == newline_count(d.take(a)),
    decreases b - a,
{
    if a < b {
        lemma_count_plain(d, a, b - 1);
        assert(d.take(b).drop_last() =~= d.take(b - 1));
    }
}

/// A newline adds one to the count.
pub proof fn lemma_count_newline(d: Seq<u8>, j: int)
    requires
        0 <= j < d.len(),
        is_nl(d[j]),
    ensures
        newline_count(d.take(j + 1)) == newline_count(d.take(j)) + 1,
{
    assert(d.take(j + 1).drop_last() =~= d.take(j));
}

/// The newline count of a prefix grows with the prefix.
pub proof fn lemma_count_monotone(d: Seq<u8>, a: int, b: int)
    requires
        0 <= a <= b <= d.len(),
    ensures
        newline_count(d.take(a)) <= newline_count(d.take(b)),
    decreases b - a,
{
    if a < b {
        lemma_count_monotone(d, a, b - 1);
        assert(d.take(b).drop_last() =~= d.take(b - 1));
    }
}

/// The line `k` lines after the one starting at `x` starts after `k` more newlines, and
/// it exists exactly when that many newlines follow `x`.
pub proof fn lemma_line_start_count(d: Seq<u8>, x: int, k: nat)
    requires
        0 <= x <= d.len(),
    ensures
        line_start_from(d, x, k) matches Some(q) ==> q <= d.len() && newline_count(d.take(q))
            == newline_count(d.take(x)) + k,
        line_start_from(d, x, k) is None ==> newline_count(d) < newline_count(d.take(x)) + k,
    decreases k,
{
    if k > 0 {
        lemma_next_newline_bounds(d, x);
        match next_newline(d, x) {
            Some(j) => {
                lemma_count_plain(d, x, j);
                lemma_count_newline(d, j);
                lemma_line_start_count(d, j + 1, (k - 1) as nat);
            },
            None => {
                lemma_count_plain(d, x, d.len() as int);
                assert(d.take(d.len() as int) =~= d);
            },
        }
    }
}

/// What the next newline of a prefix is, it is of the whole sequence.
pub proof fn lemma_next_newline_prefix(d: Seq<u8>, m: int, from: int)
    requires
        0 <= m <= d.len(),
    ensures
        next_newline(d.take(m), from) matches Some(j) ==> next_newline(d, from) == Some(j),
    decreases d.len() - from,
{
    let t = d.take(m);
    if 0 <= from < m && !is_nl(t[from]) {
        lemma_next_newline_prefix(d, m, from + 1);
    }
}

/// A line start found in a prefix is a line start of the whole sequence.
pub proof fn lemma_line_start_prefix(d: Seq<u8>, m: int, from: int, k: nat)
    requires
        0 <= m <= d.len(),
    ensures
        line_start_from(d.take(m), from, k) matches Some(p) ==> line_start_from(d, from, k) == Some(
            p,
        ),
    decreases k,
{
    if k > 0 {
        lemma_next_newline_prefix(d, m, from);
        match next_newline(d.take(m), from) {
            Some(j) => {
                lemma_line_start_prefix(d, m, j + 1, (k - 1) as nat);
            },
            None => {},
        }
    }
}

/// Start offset of the line that contains offset `p`: just after the last newline
/// before `p`, or 0.
pub open spec fn line_begin(d: Seq<u8>, p: int) -> int
    decreases p,
{
    if p <= 0 {
        0
    } else if is_nl(d[p - 1]) {
        p
    } else {
        line_begin(d, p - 1)
    }
}

/// From a line start `a` with no newline up to `p`, the line containing `p` begins at `a`.
pub proof fn lemma_line_begin_plain(d: Seq<u8>, a: int, p: int)
    requires
        0 <= a <= p <= d.len(),
        a == 0 || is_nl(d[a - 1]),
        forall|i: int| a <= i < p ==> !is_nl(#[trigger] d[i]),
    ensures
        line_begin(d, p) == a,
    decreases p - a,
{
    if p > a {
        lemma_line_begin_plain(d, a, p - 1);
    }
}

} // verus!

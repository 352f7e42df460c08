//! Sparse line index: the start offset of every `GROUP_SIZE`-th line is recorded, and
//! the lines in between are found by scanning forward from the nearest recorded start.

use vstd::prelude::*;
use crate::scan::next_newline_exec;
use crate::utf8::decode_lossy;

verus! {

/// Number of lines per sparse index group.
pub const GROUP_SIZE: u64 = 1024;

/// Maximum bytes to scan synchronously on file open for initial responsiveness.
pub const INITIAL_SCAN_BYTES: usize = 2 * 1024 * 1024;

/// The sparse entries for the first `n` lines of `d`: for each group `g` with
/// `g * GROUP_SIZE <= n`, the pair of `g` and the start offset of line `g * GROUP_SIZE`.
pub open spec fn anchor_seq(d: Seq<u8>, n: nat) -> Seq<(u64, u64)> {
    Seq::new(
        (n / (GROUP_SIZE as nat) + 1) as nat,
        |g: int|
            (
                g as u64,
                match crate::scan::line_start(d, (g * GROUP_SIZE) as nat) {
                    Some(p) => p as u64,
                    None => 0u64,
                },
            ),
    )
}

/// The number of lines found in `d`: its newlines, plus one for an unterminated last
/// line when `counts_last` holds (the scan reached the end of the file).
pub open spec fn line_total(d: Seq<u8>, counts_last: bool) -> nat {
    crate::scan::newline_count(d) + if counts_last && crate::scan::ends_mid_line(d) {
        1nat
    } else {
        0nat
    }
}

/// What `line_offset` finds for `line`, given the sparse entries, the line count and the data
/// scanned: nothing past the line count; otherwise start from the last entry whose group is
/// at most `line / GROUP_SIZE` and scan forward in `d` for the remaining lines.
pub open spec fn offset_spec(anchors: Seq<(u64, u64)>, total: nat, d: Seq<u8>, line: u64) -> Option<
    int,
> {
    if line > total || anchors.len() == 0 {
        None
    } else {
        let target = line / GROUP_SIZE;
        let k = if target < anchors.len() {
            target as int
        } else {
            anchors.len() - 1
        };
        let start_line = anchors[k].0 * GROUP_SIZE;
        if start_line == line {
            Some(anchors[k].1 as int)
        } else {
            crate::scan::line_start_from(d, anchors[k].1 as int, (line - start_line) as nat)
        }
    }
}

/// End of the line that starts at `pos` and ends before `e`, without a trailing `'\r'`.
pub open spec fn strip_cr(d: Seq<u8>, pos: int, e: int) -> int {
    if e > pos && d[e - 1] == 13u8 {
        e - 1
    } else {
        e
    }
}

/// Byte ranges of up to `count` lines of `d` starting at offset `pos`, each without its
/// line terminator (`"\n"` or `"\r\n"`); the last line may be unterminated.
pub open spec fn spans_from(d: Seq<u8>, pos: int, count: nat) -> Seq<(int, int)>
    decreases count,
{
    if count == 0 || pos < 0 || pos >= d.len() {
        Seq::empty()
    } else {
        match crate::scan::next_newline(d, pos) {
            Some(j) => seq![(pos, strip_cr(d, pos, j))] + spans_from(d, j + 1, (count - 1) as nat),
            None => seq![(pos, strip_cr(d, pos, d.len() as int))],
        }
    }
}

/// A two-level sparse line index for fast line-to-offset mapping.
pub struct LineIndex {
    /// Sparse index: group number and file offset of the first line in that group,
    /// sorted by group.
    sparse: Vec<(u64, u64)>,
    /// Total number of lines discovered so far.
    total_lines: u64,
    /// Bytes scanned so far.
    bytes_scanned: u64,
    /// Total file size.
    file_size: u64,
    /// Whether full indexing is complete.
    complete: bool,
    /// The bytes that have been scanned.
    scanned: Ghost<Seq<u8>>,
}

impl LineIndex {
    /// The sparse entries.
    pub closed spec fn anchors(&self) -> Seq<(u64, u64)> {
        self.sparse@
    }

    /// The bytes the index was built from.
    pub closed spec fn scanned(&self) -> Seq<u8> {
        self.scanned@
    }

    /// The number of lines found.
    pub closed spec fn lines(&self) -> nat {
        self.total_lines as nat
    }

    /// The file size the index was created with.
    pub closed spec fn size(&self) -> u64 {
        self.file_size
    }

    /// Whether indexing has covered the whole data.
    pub closed spec fn done(&self) -> bool {
        self.complete
    }

    /// The sparse entries are those of the scanned bytes, and the line count counts them.
    pub closed spec fn wf(&self) -> bool {
        let d = self.scanned@;
        &&& self.sparse@ == anchor_seq(d, crate::scan::newline_count(d))
        &&& forall|g: nat|
            g <= crate::scan::newline_count(d) / (GROUP_SIZE as nat) ==> (#[trigger] crate::scan::line_start(
                d,
                g * (GROUP_SIZE as nat),
            )).is_some()
        &&& self.total_lines == line_total(d, self.bytes_scanned >= self.file_size)
        &&& self.bytes_scanned == d.len()
        &&& d.len() <= usize::MAX
    }
}

/// Extending the line count by one line that starts at `q` adds an entry exactly when the
/// new line begins a group.
proof fn lemma_anchor_step(d: Seq<u8>, n: nat, q: int)
    requires
        crate::scan::line_start(d, n + 1) == Some(q),
        0 <= q <= u64::MAX,
    ensures
        (n + 1) % (GROUP_SIZE as nat) == 0 ==> anchor_seq(d, n + 1) == anchor_seq(d, n).push(
            (((n + 1) / (GROUP_SIZE as nat)) as u64, q as u64),
        ),
        (n + 1) % (GROUP_SIZE as nat) != 0 ==> anchor_seq(d, n + 1) == anchor_seq(d, n),
        (n + 1) % (GROUP_SIZE as nat) == 0 <==> (n + 1) / (GROUP_SIZE as nat) != n / (
        GROUP_SIZE as nat),
{
    let gs = GROUP_SIZE as nat;
    if (n + 1) % gs == 0 {
        assert((n + 1) / gs == n / gs + 1);
        assert(((n + 1) / gs) * gs == n + 1);
        assert(anchor_seq(d, n + 1) =~= anchor_seq(d, n).push(
            (((n + 1) / gs) as u64, q as u64),
        ));
    } else {
        assert((n + 1) / gs == n / gs);
        assert(anchor_seq(d, n + 1) =~= anchor_seq(d, n));
    }
}

impl LineIndex {
    /// Scan the first `len` bytes of `data` into an empty index.
    fn scan_chunk(&mut self, data: &[u8], len: usize)
        requires
            len <= data@.len(),
            old(self).sparse@.len() == 0,
        ensures
            final(self).scanned@ == data@.take(len as int),
            final(self).sparse@ == anchor_seq(
                data@.take(len as int),
                crate::scan::newline_count(data@.take(len as int)),
            ),
            forall|g: nat|
                g <= crate::scan::newline_count(data@.take(len as int)) / (GROUP_SIZE as nat)
                    ==> (#[trigger] crate::scan::line_start(
                    data@.take(len as int),
                    g * (GROUP_SIZE as nat),
                )).is_some(),
            final(self).total_lines == line_total(
                data@.take(len as int),
                len >= old(self).file_size,
            ),
            final(self).bytes_scanned == len,
            final(self).file_size == old(self).file_size,
            final(self).complete == old(self).complete,
    {
        let chunk = &data[0..len];
        let ghost d = data@.take(len as int);
        proof {
            assert(chunk@ =~= d);
        }
        let mut line_count: u64 = 0;
        let mut pos: usize = 0;
        // Record the first line of this chunk: it starts group 0.
        self.sparse.push((0, 0));
        let mut trailing = false;
        proof {
            assert(d.take(0) =~= Seq::<u8>::empty());
            assert(self.sparse@ =~= anchor_seq(d, 0));
            assert forall|g: nat| g <= 0nat / (GROUP_SIZE as nat) implies (#[trigger] crate::scan::line_start(
                d,
                g * (GROUP_SIZE as nat),
            )).is_some() by {
                assert(g == 0);
            }
        }
        loop
            invariant_except_break
                chunk@ == d,
                len == d.len(),
                pos <= len,
                line_count <= pos,
                crate::scan::line_start(d, line_count as nat) == Some(pos as int),
                crate::scan::newline_count(d.take(pos as int)) == line_count,
                pos == 0 || crate::scan::is_nl(d[pos - 1]),
                self.sparse@ == anchor_seq(d, line_count as nat),
                forall|g: nat|
                    g <= (line_count as nat) / (GROUP_SIZE as nat) ==> (#[trigger] crate::scan::line_start(
                        d,
                        g * (GROUP_SIZE as nat),
                    )).is_some(),
                self.file_size == old(self).file_size,
                self.complete == old(self).complete,
                !trailing,
            ensures
                self.file_size == old(self).file_size,
                self.complete == old(self).complete,
                crate::scan::newline_count(d) == line_count,
                trailing == (len >= self.file_size && crate::scan::ends_mid_line(d)),
                trailing ==> line_count < len,
                self.sparse@ == anchor_seq(d, line_count as nat),
                forall|g: nat|
                    g <= (line_count as nat) / (GROUP_SIZE as nat) ==> (#[trigger] crate::scan::line_start(
                        d,
                        g * (GROUP_SIZE as nat),
                    )).is_some(),
            decreases len - pos,
        {
            if pos >= len {
                proof {
                    assert(d.take(len as int) =~= d);
                }
                break;
            }
            match next_newline_exec(chunk, pos) {
                Some(j) => {
                    proof {
                        crate::scan::lemma_next_newline_bounds(d, pos as int);
                        crate::scan::lemma_count_plain(d, pos as int, j as int);
                        crate::scan::lemma_count_newline(d, j as int);
                        crate::scan::lemma_line_start_compose(d, 0, line_count as nat, 1);
                        assert(crate::scan::line_start_from(d, j + 1, 0) == Some(j + 1));
                        assert(crate::scan::line_start_from(d, pos as int, 1) == Some(j + 1));
                        assert(crate::scan::line_start(d, (line_count + 1) as nat) == Some(j + 1));
                        lemma_anchor_step(d, line_count as nat, j + 1);
                    }
                    line_count = line_count + 1;
                    pos = j + 1;
                    // Record a sparse entry if entering a new group
                    let group = line_count / GROUP_SIZE;
                    if self.sparse[self.sparse.len() - 1].0 != group {
                        self.sparse.push((group, pos as u64));
                    }
                    proof {
                        assert forall|g: nat|
                            g <= (line_count as nat) / (GROUP_SIZE as nat) implies (#[trigger] crate::scan::line_start(
                            d,
                            g * (GROUP_SIZE as nat),
                        )).is_some() by {
                            if g > ((line_count - 1) as nat) / (GROUP_SIZE as nat) {
                                assert(g * (GROUP_SIZE as nat) == line_count as nat);
                            }
                        }
                    }
                },
                None => {
                    proof {
                        crate::scan::lemma_next_newline_bounds(d, pos as int);
                        crate::scan::lemma_count_plain(d, pos as int, len as int);
                        assert(d.take(len as int) =~= d);
                    }
                    // No more newlines: trailing content past the last newline is one
                    // more line when the scan reached the end of the file.
                    if len as u64 >= self.file_size && pos < len {
                        trailing = true;
                    }
                    break;
                },
            }
        }
        self.total_lines = if trailing {
            line_count + 1
        } else {
            line_count
        };
        self.bytes_scanned = len as u64;
        self.scanned = Ghost(d);
    }
}

impl LineIndex {
    /// Create a new line index by performing an initial scan of the file header.
    /// Returns immediately after scanning the first ~2MB.
    pub fn new(data: &[u8], file_size: u64) -> (r: Self)
        ensures
            r.wf(),
            r.scanned() == data@.take(
                if data@.len() < INITIAL_SCAN_BYTES { data@.len() as int } else { INITIAL_SCAN_BYTES as int },
            ),
            r.lines() == line_total(r.scanned(), r.scanned().len() >= file_size),
            r.size() == file_size,
            r.done() == (r.scanned().len() >= data@.len()),
    {
        let mut idx = Self {
            sparse: Vec::new(),
            total_lines: 0,
            bytes_scanned: 0,
            file_size,
            complete: false,
            scanned: Ghost(Seq::empty()),
        };
        // Initial scan: first N bytes
        let scan_len = if data.len() < INITIAL_SCAN_BYTES {
            data.len()
        } else {
            INITIAL_SCAN_BYTES
        };
        idx.scan_chunk(data, scan_len);
        // If file fits in initial scan, mark complete
        if scan_len >= data.len() {
            idx.complete = true;
        }
        idx
    }

    /// Build the full index synchronously. Used for files that fit in the initial scan
    /// or as a fallback. Does nothing once the index is complete.
    pub fn build_full(&mut self, data: &[u8])
        requires
            old(self).wf(),
        ensures
            final(self).wf(),
            old(self).done() ==> *final(self) == *old(self),
            !old(self).done() ==> {
                &&& final(self).scanned() == data@
                &&& final(self).lines() == line_total(data@, data@.len() >= old(self).size())
                &&& final(self).size() == old(self).size()
                &&& final(self).done()
            },
    {
        if self.complete {
            return;
        }
        self.sparse.clear();
        self.total_lines = 0;
        let scan_len = data.len();
        self.scan_chunk(data, scan_len);
        proof {
            assert(data@.take(scan_len as int) =~= data@);
        }
        self.complete = true;
    }

    /// Get the approximate total number of lines.
    /// If indexing is complete, this is exact.
    pub fn total_lines(&self) -> (n: u64)
        ensures
            n == self.lines(),
    {
        self.total_lines
    }

    /// Whether full indexing is complete.
    pub fn is_complete(&self) -> (b: bool)
        ensures
            b == self.done(),
    {
        self.complete
    }

    /// Get the file size.
    pub fn file_size(&self) -> (n: u64)
        ensures
            n == self.size(),
    {
        self.file_size
    }

    /// Bytes scanned so far.
    pub fn bytes_scanned(&self) -> (n: u64)
        requires
            self.wf(),
        ensures
            n == self.scanned().len(),
    {
        self.bytes_scanned
    }

    /// Number of sparse entries.
    pub fn sparse_len(&self) -> (n: usize)
        ensures
            n == self.anchors().len(),
    {
        self.sparse.len()
    }

    /// Number of sparse entries whose group is at most `target`.
    fn entries_upto(&self, target: u64) -> (k: usize)
        requires
            self.wf(),
        ensures
            k == (if target < self.anchors().len() { target + 1 } else { self.anchors().len() as int }),
    {
        let ghost a = self.sparse@;
        let mut lo: usize = 0;
        let mut hi: usize = self.sparse.len();
        while lo < hi
            invariant
                a == self.sparse@,
                self.wf(),
                0 <= lo <= hi <= a.len(),
                forall|i: int| 0 <= i < lo ==> a[i].0 <= target,
                forall|i: int| hi <= i < a.len() ==> a[i].0 > target,
            decreases hi - lo,
        {
            let mid = lo + (hi - lo) / 2;
            if self.sparse[mid].0 <= target {
                lo = mid + 1;
            } else {
                hi = mid;
            }
        }
        proof {
            if target < a.len() {
                assert(a[target as int].0 == target);
            }
            if lo > 0 {
                assert(a[lo - 1].0 == lo - 1);
            }
            if lo < a.len() {
                assert(a[lo as int].0 == lo);
            }
        }
        lo
    }

    /// Get the file offset for a given line number.
    /// Uses the sparse index to find the nearest group, then scans forward.
    /// Returns None if the line is beyond what's been indexed.
    pub fn line_offset(&self, data: &[u8], line: u64) -> (r: Option<u64>)
        requires
            self.wf(),
        ensures
            match r {
                Some(x) => offset_spec(self.anchors(), self.lines(), data@, line) == Some(x as int),
                None => offset_spec(self.anchors(), self.lines(), data@, line) is None,
            },
            r matches Some(x) ==> x <= usize::MAX,
    {
        let ghost d = data@;
        let ghost sc = self.scanned@;
        let total = self.total_lines;
        if line > total {
            return None;
        }
        // Find the nearest sparse entry <= target group
        let target_group = line / GROUP_SIZE;
        let idx = self.entries_upto(target_group);
        proof {
            assert(self.sparse@.len() >= 1);
            let k = idx - 1;
            let g = k as nat;
            assert(self.sparse@[k] == anchor_seq(sc, crate::scan::newline_count(sc))[k]);
            assert(g <= crate::scan::newline_count(sc) / (GROUP_SIZE as nat));
            assert(crate::scan::line_start(sc, g * (GROUP_SIZE as nat)).is_some());
            crate::scan::lemma_line_start_bounds(sc, 0, g * (GROUP_SIZE as nat));
            assert(self.sparse@[k].1 <= sc.len());
        }
        let (start_group, start_offset) = self.sparse[idx - 1];
        // Count lines from start_offset to find the target line
        let start_line = start_group * GROUP_SIZE;
        if start_line == line {
            return Some(start_offset);
        }
        let mut current_line = start_line;
        let mut pos = start_offset as usize;
        let n = data.len();
        proof {
            assert(crate::scan::line_start_from(d, pos as int, 0) == Some(pos as int));
        }
        while pos < n && current_line < line
            invariant
                d == data@,
                n == d.len(),
                start_line <= current_line < line,
                pos <= usize::MAX,
                crate::scan::line_start_from(d, start_offset as int, (line - start_line) as nat)
                    == crate::scan::line_start_from(d, pos as int, (line - current_line) as nat),
                offset_spec(self.anchors(), self.lines(), d, line) == crate::scan::line_start_from(
                    d,
                    start_offset as int,
                    (line - start_line) as nat,
                ),
            decreases n - pos,
        {
            match next_newline_exec(data, pos) {
                Some(j) => {
                    proof {
                        crate::scan::lemma_next_newline_bounds(d, pos as int);
                        assert((line - current_line) as nat == ((line - current_line - 1) as nat) + 1);
                    }
                    current_line = current_line + 1;
                    pos = j + 1;
                    if current_line == line {
                        proof {
                            assert(crate::scan::line_start_from(d, pos as int, 0) == Some(pos as int));
                        }
                        return Some(pos as u64);
                    }
                },
                None => {
                    return None;
                },
            }
        }
        proof {
            if current_line < line {
                crate::scan::lemma_next_newline_bounds(d, pos as int);
                assert(crate::scan::next_newline(d, pos as int) is None);
            }
        }
        // The target lies past the end of the data.
        None
    }
}

/// The byte ranges that `line_spans` yields: those of up to `count` lines from where
/// `line_offset` puts `start_line`, or none when it finds no such line.
pub open spec fn lines_spec(anchors: Seq<(u64, u64)>, total: nat, d: Seq<u8>, start_line: u64, count: u32) -> Seq<
    (int, int),
> {
    match offset_spec(anchors, total, d, start_line) {
        None => Seq::empty(),
        Some(off) => spans_from(d, off, count as nat),
    }
}

/// Byte ranges as pairs of integers.
pub open spec fn int_pairs(v: Seq<(usize, usize)>) -> Seq<(int, int)> {
    v.map_values(|p: (usize, usize)| (p.0 as int, p.1 as int))
}

proof fn lemma_spans_bounds(d: Seq<u8>, pos: int, count: nat)
    ensures
        forall|i: int|
            0 <= i < spans_from(d, pos, count).len() ==> 0 <= (#[trigger] spans_from(d, pos, count)[i]).0
                <= spans_from(d, pos, count)[i].1 <= d.len(),
    decreases count,
{
    if !(count == 0 || pos < 0 || pos >= d.len()) {
        crate::scan::lemma_next_newline_bounds(d, pos);
        match crate::scan::next_newline(d, pos) {
            Some(j) => {
                lemma_spans_bounds(d, j + 1, (count - 1) as nat);
                let s = spans_from(d, pos, count);
                let rest = spans_from(d, j + 1, (count - 1) as nat);
                assert forall|i: int| 0 <= i < s.len() implies 0 <= (#[trigger] s[i]).0 <= s[i].1
                    <= d.len() by {
                    if i > 0 {
                        assert(s[i] == rest[i - 1]);
                    }
                }
            },
            None => {},
        }
    }
}

impl LineIndex {
    /// Byte ranges of `count` lines starting from `start_line`, each without its line
    /// terminator; fewer when the data ends first, none when the line is not found.
    pub fn line_spans(&self, data: &[u8], start_line: u64, count: u32) -> (r: Vec<(usize, usize)>)
        requires
            self.wf(),
        ensures
            int_pairs(r@) == lines_spec(self.anchors(), self.lines(), data@, start_line, count),
    {
        let ghost d = data@;
        let mut spans: Vec<(usize, usize)> = Vec::new();
        let start_offset = match self.line_offset(data, start_line) {
            Some(off) => off,
            None => {
                proof {
                    assert(int_pairs(spans@) =~= Seq::<(int, int)>::empty());
                }
                return spans;
            },
        };
        let ghost target = spans_from(d, start_offset as int, count as nat);
        let mut pos = start_offset as usize;
        let n = data.len();
        let mut k: u32 = 0;
        let mut done = false;
        proof {
            assert(int_pairs(spans@) =~= Seq::<(int, int)>::empty());
            assert(Seq::<(int, int)>::empty() + target =~= target);
        }
        while k < count && pos < n && !done
            invariant
                d == data@,
                n == d.len(),
                k <= count,
                !done ==> int_pairs(spans@) + spans_from(d, pos as int, (count - k) as nat)
                    == target,
                done ==> int_pairs(spans@) == target,
            decreases count - k,
        {
            let ghost before = int_pairs(spans@);
            match next_newline_exec(data, pos) {
                Some(nl) => {
                    proof {
                        crate::scan::lemma_next_newline_bounds(d, pos as int);
                    }
                    // Check for CRLF
                    let line_end = if nl > pos && data[nl - 1] == 13u8 {
                        nl - 1
                    } else {
                        nl
                    };
                    spans.push((pos, line_end));
                    proof {
                        assert(int_pairs(spans@) =~= before.push((pos as int, line_end as int)));
                        assert(int_pairs(spans@) + spans_from(d, nl + 1, (count - k - 1) as nat)
                            =~= before + spans_from(d, pos as int, (count - k) as nat));
                    }
                    pos = nl + 1;
                },
                None => {
                    // Last line without newline
                    let line_end = if n > pos && data[n - 1] == 13u8 {
                        n - 1
                    } else {
                        n
                    };
                    spans.push((pos, line_end));
                    proof {
                        assert(int_pairs(spans@) =~= before.push((pos as int, line_end as int)));
                        assert(int_pairs(spans@) =~= before + spans_from(
                            d,
                            pos as int,
                            (count - k) as nat,
                        ));
                    }
                    done = true;
                },
            }
            k = k + 1;
        }
        proof {
            if !done {
                assert(spans_from(d, pos as int, (count - k) as nat) =~= Seq::<(int, int)>::empty());
                assert(int_pairs(spans@) =~= int_pairs(spans@) + Seq::<(int, int)>::empty());
            }
        }
        spans
    }

    /// Extract `count` lines starting from `start_line`, decoded lossily as UTF-8.
    pub fn get_lines(&self, data: &[u8], start_line: u64, count: u32) -> (r: Vec<String>)
        requires
            self.wf(),
        ensures
            r@.len() == lines_spec(self.anchors(), self.lines(), data@, start_line, count).len(),
            forall|i: int|
                0 <= i < r@.len() ==> (#[trigger] r@[i])@ == crate::utf8::lossy_utf8(
                    data@.subrange(
                        lines_spec(self.anchors(), self.lines(), data@, start_line, count)[i].0,
                        lines_spec(self.anchors(), self.lines(), data@, start_line, count)[i].1,
                    ),
                ),
    {
        let spans = self.line_spans(data, start_line, count);
        let ghost sp = lines_spec(self.anchors(), self.lines(), data@, start_line, count);
        proof {
            match offset_spec(self.anchors(), self.lines(), data@, start_line) {
                None => {},
                Some(off) => {
                    lemma_spans_bounds(data@, off, count as nat);
                },
            }
        }
        let mut lines: Vec<String> = Vec::new();
        let mut i: usize = 0;
        while i < spans.len()
            invariant
                int_pairs(spans@) == sp,
                i <= spans@.len(),
                lines@.len() == i,
                forall|j: int| 0 <= j < sp.len() ==> 0 <= (#[trigger] sp[j]).0 <= sp[j].1 <= data@.len(),
                forall|j: int|
                    0 <= j < i ==> (#[trigger] lines@[j])@ == crate::utf8::lossy_utf8(
                        data@.subrange(sp[j].0, sp[j].1),
                    ),
            decreases spans@.len() - i,
        {
            let (s, e) = spans[i];
            proof {
                assert(sp[i as int] == (s as int, e as int));
            }
            let line = decode_lossy(&data[s..e]);
            lines.push(line);
            i = i + 1;
        }
        lines
    }
}

/// The sparse index agrees with a plain scan: when the scanned bytes are a prefix of `d`,
/// the offset found for a line up to the line count is the start of that line in `d`,
/// and nothing is found past the line count.
pub proof fn lemma_offset_is_line_start(idx: &LineIndex, d: Seq<u8>, line: u64)
    requires
        idx.wf(),
        idx.scanned().len() <= d.len(),
        d.take(idx.scanned().len() as int) == idx.scanned(),
    ensures
        offset_spec(idx.anchors(), idx.lines(), d, line) == if line > idx.lines() {
            None
        } else {
            crate::scan::line_start(d, line as nat)
        },
{
    let sc = idx.scanned();
    let a = idx.anchors();
    let nl = crate::scan::newline_count(sc);
    let gs = GROUP_SIZE as nat;
    if line <= idx.lines() {
        let target = line / GROUP_SIZE;
        let k = if target < a.len() { target as int } else { a.len() - 1 };
        let g = k as nat;
        assert(a[k] == anchor_seq(sc, nl)[k]);
        assert(g <= nl / gs);
        assert(crate::scan::line_start(sc, g * gs).is_some());
        let off = crate::scan::line_start(sc, g * gs).unwrap();
        crate::scan::lemma_line_start_prefix(d, sc.len() as int, 0, g * gs);
        assert(g * gs <= line);
        crate::scan::lemma_line_start_compose(d, 0, g * gs, (line - g * gs) as nat);
        assert(g * gs + (line - g * gs) as nat == line as nat);
        crate::scan::lemma_line_start_bounds(sc, 0, g * gs);
        assert(a[k].1 as int == off);
    }
}

/// What a well-formed index holds: one sparse entry per group of `GROUP_SIZE` lines of
/// the scanned bytes (group `g` with the start of line `g * GROUP_SIZE`), so
/// `newline_count / GROUP_SIZE + 1` entries, and the line count of the scanned bytes.
pub proof fn lemma_index_contents(idx: &LineIndex)
    requires
        idx.wf(),
    ensures
        idx.anchors() == anchor_seq(idx.scanned(), crate::scan::newline_count(idx.scanned())),
        idx.anchors().len() == crate::scan::newline_count(idx.scanned()) / (GROUP_SIZE as nat) + 1,
        forall|g: int|
            0 <= g < idx.anchors().len() ==> #[trigger] crate::scan::line_start(
                idx.scanned(),
                (g * GROUP_SIZE) as nat,
            ) == Some(idx.anchors()[g].1 as int),
        idx.lines() == line_total(idx.scanned(), idx.scanned().len() >= idx.size()),
{
    let d = idx.scanned();
    let nl = crate::scan::newline_count(d);
    assert forall|g: int| 0 <= g < idx.anchors().len() implies #[trigger] crate::scan::line_start(
        d,
        (g * GROUP_SIZE) as nat,
    ) == Some(idx.anchors()[g].1 as int) by {
        let gn = g as nat;
        assert(gn <= nl / (GROUP_SIZE as nat));
        assert((g * GROUP_SIZE) as nat == gn * (GROUP_SIZE as nat));
        assert(crate::scan::line_start(d, gn * (GROUP_SIZE as nat)).is_some());
        crate::scan::lemma_line_start_bounds(d, 0, gn * (GROUP_SIZE as nat));
    }
}

/// On an index built over all of `d` (the whole file), line `k < total` starts in `d`,
/// and it is the end of `d` only when it is the last line and `d` ends with a newline;
/// at the line count, `d` has no further line start unless it is empty or ends with a
/// newline, where that start is the end of `d`.
proof fn lemma_complete_starts(d: Seq<u8>, k: nat)
    requires
        k <= line_total(d, true),
    ensures
        k < line_total(d, true) ==> (crate::scan::line_start(d, k) matches Some(p) && p < d.len()),
        k == line_total(d, true) ==> crate::scan::line_start(d, k) == if crate::scan::ends_mid_line(
            d,
        ) {
            None::<int>
        } else {
            Some(d.len() as int)
        },
{
    let nl = crate::scan::newline_count(d);
    let len = d.len() as int;
    assert(d.take(0) =~= Seq::<u8>::empty());
    assert(d.take(len) =~= d);
    crate::scan::lemma_line_start_count(d, 0, k);
    crate::scan::lemma_line_start_bounds(d, 0, k);
    match crate::scan::line_start(d, k) {
        Some(q) => {
            crate::scan::lemma_count_monotone(d, q, len);
            if q == len && k < line_total(d, true) {
                // q == len means all newlines lie before it: k == nl, so the last line is
                // unterminated, yet line k > 0 starts after a newline.
                assert(k == nl);
                assert(crate::scan::ends_mid_line(d));
            }
            if q < len && !crate::scan::ends_mid_line(d) {
                crate::scan::lemma_count_newline(d, len - 1);
                crate::scan::lemma_count_monotone(d, q, len - 1);
            }
        },
        None => {},
    }
}

/// On an index built over all of `d` (the whole file), `line_offset` finds the start of
/// line `line` (just past its `line`-th newline) for every line below the line count; at
/// the line count it finds the end of `d` when `d` is empty or ends with a newline, and
/// nothing otherwise; past the line count it finds nothing.
pub proof fn lemma_line_offset_complete(idx: &LineIndex, d: Seq<u8>, line: u64)
    requires
        idx.wf(),
        idx.scanned() == d,
        idx.size() <= d.len(),
    ensures
        idx.lines() == line_total(d, true),
        line < idx.lines() ==> crate::scan::line_start(d, line as nat) is Some && offset_spec(
            idx.anchors(),
            idx.lines(),
            d,
            line,
        ) == crate::scan::line_start(d, line as nat),
        line == idx.lines() ==> offset_spec(idx.anchors(), idx.lines(), d, line) == if crate::scan::ends_mid_line(
            d,
        ) {
            None::<int>
        } else {
            Some(d.len() as int)
        },
        line > idx.lines() ==> offset_spec(idx.anchors(), idx.lines(), d, line) is None,
{
    assert(d.take(d.len() as int) =~= d);
    lemma_index_contents(idx);
    lemma_offset_is_line_start(idx, d, line);
    if line <= idx.lines() {
        lemma_complete_starts(d, line as nat);
    }
}

/// The spans of up to `count` lines from line `k` of `d` number `min(count, total - k)`.
proof fn lemma_spans_len(d: Seq<u8>, k: nat, count: nat)
    requires
        k < line_total(d, true),
    ensures
        crate::scan::line_start(d, k) is Some,
        spans_from(d, crate::scan::line_start(d, k).unwrap(), count).len() == if count < line_total(
            d,
            true,
        ) - k {
            count as int
        } else {
            line_total(d, true) - k
        },
    decreases count,
{
    let t = line_total(d, true);
    let len = d.len() as int;
    lemma_complete_starts(d, k);
    let p = crate::scan::line_start(d, k).unwrap();
    assert(crate::scan::line_start(d, k) == Some(p));
    crate::scan::lemma_line_start_bounds(d, 0, k);
    assert(0 <= p < len);
    if count > 0 {
        crate::scan::lemma_next_newline_bounds(d, p);
        crate::scan::lemma_line_start_compose(d, 0, k, 1);
        match crate::scan::next_newline(d, p) {
            Some(j) => {
                assert(crate::scan::line_start_from(d, j + 1, 0) == Some(j + 1));
                assert(crate::scan::line_start_from(d, p, 1) == Some(j + 1));
                assert(crate::scan::line_start_from(d, 0, k + 1) == Some(j + 1));
                assert(crate::scan::line_start(d, k + 1) == Some(j + 1));
                assert(spans_from(d, p, count) == seq![(p, strip_cr(d, p, j))] + spans_from(
                    d,
                    j + 1,
                    (count - 1) as nat,
                ));
                if k + 1 < t {
                    lemma_spans_len(d, k + 1, (count - 1) as nat);
                } else {
                    lemma_complete_starts(d, k + 1);
                    assert(j + 1 >= len);
                    assert(spans_from(d, j + 1, (count - 1) as nat).len() == 0);
                }
            },
            None => {
                assert(d.take(0) =~= Seq::<u8>::empty());
                assert(d.take(len) =~= d);
                crate::scan::lemma_line_start_count(d, 0, k);
                crate::scan::lemma_count_plain(d, p, len);
                assert(crate::scan::newline_count(d) == k);
                assert(spans_from(d, p, count).len() == 1);
            },
        }
    }
}

/// On an index built over all of `d` (the whole file), the lines found from `start_line`
/// number `min(count, total - start_line)` for a start below the line count, and none
/// otherwise; the first of them starts where line `start_line` starts.
pub proof fn lemma_get_lines_complete(idx: &LineIndex, d: Seq<u8>, start_line: u64, count: u32)
    requires
        idx.wf(),
        idx.scanned() == d,
        idx.size() <= d.len(),
    ensures
        lines_spec(idx.anchors(), idx.lines(), d, start_line, count).len() == if start_line
            < idx.lines() {
            if count < idx.lines() - start_line {
                count as int
            } else {
                idx.lines() - start_line
            }
        } else {
            0
        },
        start_line < idx.lines() && count > 0 ==> lines_spec(
            idx.anchors(),
            idx.lines(),
            d,
            start_line,
            count,
        )[0].0 == crate::scan::line_start(d, start_line as nat).unwrap(),
{
    lemma_line_offset_complete(idx, d, start_line);
    if start_line < idx.lines() {
        lemma_spans_len(d, start_line as nat, count as nat);
        let p = crate::scan::line_start(d, start_line as nat).unwrap();
        lemma_complete_starts(d, start_line as nat);
    }
}

} // verus!

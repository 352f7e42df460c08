//! Search commands: the search itself, the match that comes next after the cursor, and
//! replacing every match.

use vstd::prelude::*;
use crate::buffer::piece_table::{replaced, EditRecord, PieceTable};
use crate::commands::edit_cmds::skip_lines;
use crate::document::{reindexed, Document};
use crate::search::regex_search::{regex_results, search_regex};
use crate::search::text_search::text_results;
use crate::search::types::{SearchMatch, SearchOptions};

verus! {

/// `r` is what the search finds: a regex search when the options ask for one, else a
/// plain one.
pub open spec fn search_results(content: Seq<u8>, query: Seq<char>, options: SearchOptions, r: Seq<
    SearchMatch,
>) -> bool {
    if options.regex {
        regex_results(content, query, options, r)
    } else {
        text_results(content, query, options, r)
    }
}

/// The search in `content` that the options ask for.
fn find_all(content: &[u8], query: &str, options: &SearchOptions) -> (r: Vec<SearchMatch>)
    ensures
        search_results(content@, query@, *options, r@),
{
    if options.regex {
        search_regex(content, query, options)
    } else {
        crate::search::text_search::search(content, query, options)
    }
}

/// Search for text in the document.
pub fn search(doc: &Document, query: &str, options: &SearchOptions) -> (r: Vec<SearchMatch>)
    requires
        doc.piece_table.wf(),
    ensures
        search_results(doc.piece_table.text(), query@, *options, r@),
{
    let content = doc.content_bytes();
    find_all(content.as_slice(), query, options)
}

/// `m` lies after the position (line, col).
pub open spec fn is_after(m: SearchMatch, line: u64, col: u32) -> bool {
    m.line > line || (m.line == line && m.col > col)
}

/// Index of the first match at `from` or later that lies after (line, col).
pub open spec fn first_after(ms: Seq<SearchMatch>, line: u64, col: u32, from: int) -> Option<int>
    decreases ms.len() - from,
{
    if from < 0 || from >= ms.len() {
        None
    } else if is_after(ms[from], line, col) {
        Some(from)
    } else {
        first_after(ms, line, col, from + 1)
    }
}

/// Index of the match that comes next after (line, col): the first one after it, else,
/// wrapping around, the first of all; `None` when there is no match.
pub open spec fn next_index(ms: Seq<SearchMatch>, line: u64, col: u32) -> Option<int> {
    match first_after(ms, line, col, 0) {
        Some(i) => Some(i),
        None => if ms.len() > 0 {
            Some(0)
        } else {
            None
        },
    }
}

/// The match among `results` that comes next after (line, col).
#[verifier::loop_isolation(false)]
pub fn next_match(results: Vec<SearchMatch>, line: u64, col: u32) -> (r: Option<SearchMatch>)
    ensures
        match next_index(results@, line, col) {
            None => r is None,
            Some(i) => r == Some(results@[i]),
        },
{
    let mut results = results;
    let ghost ms = results@;
    let mut i: usize = 0;
    while i < results.len()
        invariant
            results@ == ms,
            i <= ms.len(),
            first_after(ms, line, col, 0) == first_after(ms, line, col, i as int),
        decreases ms.len() - i,
    {
        let after = results[i].line > line || (results[i].line == line && results[i].col > col);
        if after {
            assert(first_after(ms, line, col, i as int) == Some(i as int));
            return Some(results.remove(i));
        }
        i = i + 1;
    }
    assert(first_after(ms, line, col, i as int) is None);
    if results.len() == 0 {
        None
    } else {
        Some(results.remove(0))
    }
}

/// Find the next match after a given position: the first match after it, else the first
/// match of all.
pub fn search_next(
    doc: &Document,
    query: &str,
    options: &SearchOptions,
    current_line: u64,
    current_col: u32,
) -> (r: Option<SearchMatch>)
    requires
        doc.piece_table.wf(),
    ensures
        exists|rs: Seq<SearchMatch>|
            #[trigger] search_results(doc.piece_table.text(), query@, *options, rs) && match next_index(
                rs,
                current_line,
                current_col,
            ) {
                None => r is None,
                Some(i) => r == Some(rs[i]),
            },
{
    let results = search(doc, query, options);
    let ghost rs = results@;
    let r = next_match(results, current_line, current_col);
    assert(search_results(doc.piece_table.text(), query@, *options, rs));
    r
}

/// Offset of the start of line `line` in `content`: the end of the content when it has
/// fewer lines.
fn line_to_byte_offset(content: &[u8], line: u64) -> (r: u64)
    ensures
        r == skip_lines(content@, 0, 0, line as int).0,
        r <= content@.len(),
{
    let ghost c = content@;
    let n = content.len();
    let mut current_line: u64 = 0;
    let mut offset: usize = 0;
    while offset < n && current_line < line
        invariant
            c == content@,
            n == c.len(),
            offset <= n,
            current_line <= offset,
            skip_lines(c, offset as int, current_line as int, line as int) == skip_lines(
                c,
                0,
                0,
                line as int,
            ),
        decreases n - offset,
    {
        if content[offset] == 10u8 {
            current_line = current_line + 1;
            offset = offset + 1;
        } else if content[offset] == 13u8 && offset + 1 < n && content[offset + 1] == 10u8 {
            current_line = current_line + 1;
            offset = offset + 2;
        } else {
            offset = offset + 1;
        }
    }
    offset as u64
}

/// `t` after `replace(pos, len, data)`: at or past the end `data` is appended; otherwise
/// the bytes `[pos, pos + len)`, clipped to the end, give way to `data`.
pub open spec fn replace_text(t: Seq<u8>, pos: int, len: int, data: Seq<u8>) -> Seq<u8> {
    if pos >= t.len() {
        t + data
    } else {
        let l = if len < t.len() - pos {
            len
        } else {
            t.len() - pos
        };
        t.take(pos) + data + t.skip(pos + l)
    }
}

/// Where the match `m` starts in `c`: the start of its line plus its column.
pub open spec fn match_start(c: Seq<u8>, m: SearchMatch) -> int {
    skip_lines(c, 0, 0, m.line as int).0 + m.col
}

/// `t` with each match of `ms` replaced by `rep`, the last match first, each at the place
/// where it starts in `c`.
pub open spec fn replaced_back(t: Seq<u8>, c: Seq<u8>, ms: Seq<SearchMatch>, rep: Seq<u8>) -> Seq<u8>
    decreases ms.len(),
{
    if ms.len() == 0 {
        t
    } else {
        replace_text(
            replaced_back(t, c, ms.drop_first(), rep),
            match_start(c, ms[0]),
            ms[0].length as int,
            rep,
        )
    }
}

/// The undo record that `replace(pos, len, data)` on `t` pushes: an insert of `data` at
/// the end when `pos` is at or past the end (none when `data` is empty), else a replace of
/// the bytes `[pos, pos + len)`, clipped to the end.
pub open spec fn replace_record(t: Seq<u8>, pos: int, len: int, data: Seq<u8>) -> Seq<EditRecord> {
    if pos >= t.len() {
        if data.len() == 0 {
            Seq::empty()
        } else {
            seq![EditRecord::Insert { pos: t.len() as u64, text: data }]
        }
    } else {
        let l = if len < t.len() - pos {
            len
        } else {
            t.len() - pos
        };
        seq![EditRecord::Replace { pos: pos as u64, old_text: t.subrange(pos, pos + l), new_text: data }]
    }
}

/// `s` repeated `n` times.
pub open spec fn repeated(s: Seq<u8>, n: nat) -> Seq<u8>
    decreases n,
{
    if n == 0 {
        Seq::empty()
    } else {
        repeated(s, (n - 1) as nat) + s
    }
}

/// The undo records that replacing the matches of `ms` in `t`, the last first, pushes, in
/// the order they are pushed.
pub open spec fn replaced_back_records(t: Seq<u8>, c: Seq<u8>, ms: Seq<SearchMatch>, rep: Seq<u8>) -> Seq<
    EditRecord,
>
    decreases ms.len(),
{
    if ms.len() == 0 {
        Seq::empty()
    } else {
        replaced_back_records(t, c, ms.drop_first(), rep) + replace_record(
            replaced_back(t, c, ms.drop_first(), rep),
            match_start(c, ms[0]),
            ms[0].length as int,
            rep,
        )
    }
}

/// Replacing `n` matches by `rep_len` bytes each stays within the limits: positions in `t`
/// plus a column and a length fit in `u64`, and the text and the add buffer (now
/// `added_len` bytes) can each grow by `n * rep_len` bytes within `usize`.
pub open spec fn replace_room(t: Seq<u8>, added_len: int, n: int, rep_len: int) -> bool {
    &&& t.len() + 0x1_FFFF_FFFE <= u64::MAX
    &&& t.len() + n * rep_len <= usize::MAX
    &&& added_len + n * rep_len <= usize::MAX
}

/// What one `replace` does to the text and the add buffer.
proof fn lemma_replaced_text(old: PieceTable, new: PieceTable, pos: u64, len: u64, data: Seq<u8>)
    requires
        replaced(old, new, pos, len, data),
    ensures
        new.text() == replace_text(old.text(), pos as int, len as int, data),
        new.text().len() <= old.text().len() + data.len(),
        new.added().len() <= old.added().len() + data.len(),
        new.added() == old.added() + repeated(
            data,
            replace_record(old.text(), pos as int, len as int, data).len(),
        ),
        new.original_bytes() == old.original_bytes(),
        new.undo_actions() == old.undo_actions() + replace_record(
            old.text(),
            pos as int,
            len as int,
            data,
        ),
        replace_record(old.text(), pos as int, len as int, data).len() > 0 ==> new.redo_actions()
            == Seq::<EditRecord>::empty(),
        replace_record(old.text(), pos as int, len as int, data).len() == 0 ==> new.redo_actions()
            == old.redo_actions(),
{
    let t = old.text();
    let rec = replace_record(t, pos as int, len as int, data);
    assert(repeated(data, 0) =~= Seq::<u8>::empty());
    assert(repeated(data, 1) =~= data) by {
        assert(repeated(data, 1) == repeated(data, 0) + data);
    }
    if pos >= t.len() {
        if data.len() == 0 {
            assert(t + data =~= t);
            assert(old.undo_actions() + rec =~= old.undo_actions());
            assert(old.added() + repeated(data, 0) =~= old.added());
        } else {
            assert(t.take(t.len() as int) + data + t.skip(t.len() as int) =~= t + data);
            assert(old.undo_actions() + rec =~= old.undo_actions().push(rec[0]));
        }
    } else {
        assert(old.undo_actions() + rec =~= old.undo_actions().push(rec[0]));
    }
}

/// Replace each match of `matches` by `replacement`, the last match first, each at the
/// place where it starts in `content`, the text the matches were found in.
pub fn replace_matches(
    table: &mut PieceTable,
    content: &[u8],
    matches: &Vec<SearchMatch>,
    replacement: &[u8],
)
    requires
        old(table).wf(),
        replace_room(
            content@,
            old(table).added().len() as int,
            matches@.len() as int,
            replacement@.len() as int,
        ),
        old(table).text().len() + matches@.len() * replacement@.len() <= usize::MAX,
    ensures
        final(table).wf(),
        final(table).text() == replaced_back(old(table).text(), content@, matches@, replacement@),
        final(table).original_bytes() == old(table).original_bytes(),
        final(table).undo_actions() == old(table).undo_actions() + replaced_back_records(
            old(table).text(),
            content@,
            matches@,
            replacement@,
        ),
        final(table).added() == old(table).added() + repeated(
            replacement@,
            replaced_back_records(old(table).text(), content@, matches@, replacement@).len(),
        ),
        final(table).redo_actions() == if replaced_back_records(
            old(table).text(),
            content@,
            matches@,
            replacement@,
        ).len() > 0 {
            Seq::<EditRecord>::empty()
        } else {
            old(table).redo_actions()
        },
{
    let ghost t0 = table.text();
    let ghost c = content@;
    let ghost ms = matches@;
    let ghost rep = replacement@;
    let n = matches.len();
    let mut k: usize = n;
    proof {
        assert(ms.skip(n as int) =~= Seq::<SearchMatch>::empty());
        assert(old(table).added() + repeated(rep, 0) =~= old(table).added());
        assert(old(table).undo_actions() + Seq::<EditRecord>::empty() =~= old(table).undo_actions());
    }
    while k > 0
        invariant
            table.wf(),
            c == content@,
            ms == matches@,
            rep == replacement@,
            n == ms.len(),
            k <= n,
            c.len() + 0x1_FFFF_FFFE <= u64::MAX,
            table.text() == replaced_back(t0, c, ms.skip(k as int), rep),
            table.text().len() + k * rep.len() <= usize::MAX,
            table.added().len() + k * rep.len() <= usize::MAX,
            table.original_bytes() == old(table).original_bytes(),
            table.undo_actions() == old(table).undo_actions() + replaced_back_records(
                t0,
                c,
                ms.skip(k as int),
                rep,
            ),
            table.added() == old(table).added() + repeated(
                rep,
                replaced_back_records(t0, c, ms.skip(k as int), rep).len(),
            ),
            table.redo_actions() == if replaced_back_records(t0, c, ms.skip(k as int), rep).len()
                > 0 {
                Seq::<EditRecord>::empty()
            } else {
                old(table).redo_actions()
            },
        decreases k,
    {
        k = k - 1;
        let ghost before = *table;
        let line_start = line_to_byte_offset(content, matches[k].line);
        let abs_start = line_start + matches[k].col as u64;
        let abs_end = abs_start + matches[k].length as u64;
        proof {
            let kk = k as int;
            let r = rep.len() as int;
            assert((kk + 1) * r == kk * r + r) by (nonlinear_arith);
            assert(kk * r >= 0) by (nonlinear_arith)
                requires
                    kk >= 0,
                    r >= 0,
            ;
        }
        let len = abs_end - abs_start;
        table.replace(abs_start, len, replacement);
        proof {
            lemma_replaced_text(before, *table, abs_start, len, rep);
            assert(ms.skip(k as int).drop_first() =~= ms.skip(k + 1));
            assert(ms.skip(k as int)[0] == ms[k as int]);
            let prev = replaced_back_records(t0, c, ms.skip(k + 1), rep);
            let step = replace_record(before.text(), abs_start as int, len as int, rep);
            assert(replaced_back_records(t0, c, ms.skip(k as int), rep) == prev + step);
            assert(old(table).undo_actions() + prev + step =~= old(table).undo_actions() + (prev
                + step));
            let a0 = old(table).added();
            if step.len() > 0 {
                assert(repeated(rep, prev.len() + 1) == repeated(rep, prev.len()) + rep);
                assert(a0 + repeated(rep, prev.len()) + rep =~= a0 + (repeated(rep, prev.len())
                    + rep));
            } else {
                assert(a0 + repeated(rep, prev.len()) + repeated(rep, 0) =~= a0 + repeated(
                    rep,
                    prev.len(),
                ));
            }
        }
    }
    assert(ms.skip(0) =~= ms);
}

/// The matches lie inside `c`, each ending at or before the next one starts.
pub open spec fn matches_in_order(c: Seq<u8>, ms: Seq<SearchMatch>) -> bool {
    &&& forall|i: int|
        0 <= i < ms.len() ==> 0 <= match_start(c, #[trigger] ms[i]) && match_start(c, ms[i])
            + ms[i].length <= c.len()
    &&& forall|i: int, j: int|
        0 <= i < j < ms.len() ==> match_start(c, #[trigger] ms[i]) + ms[i].length <= match_start(
            c,
            #[trigger] ms[j],
        )
}

/// `c` from `pos` on, with each match of `ms` replaced by `rep`.
pub open spec fn splice(c: Seq<u8>, ms: Seq<SearchMatch>, rep: Seq<u8>, pos: int) -> Seq<u8>
    decreases ms.len(),
{
    if ms.len() == 0 {
        c.subrange(pos, c.len() as int)
    } else {
        c.subrange(pos, match_start(c, ms[0])) + rep + splice(
            c,
            ms.drop_first(),
            rep,
            match_start(c, ms[0]) + ms[0].length,
        )
    }
}

/// Copying from `p` is copying `[p, q)` and then from `q`, when `q` comes before the first
/// match.
proof fn lemma_splice_split(c: Seq<u8>, ms: Seq<SearchMatch>, rep: Seq<u8>, p: int, q: int)
    requires
        0 <= p <= q,
        ms.len() == 0 ==> q <= c.len(),
        ms.len() > 0 ==> q <= match_start(c, ms[0]) <= c.len(),
    ensures
        splice(c, ms, rep, p) == c.subrange(p, q) + splice(c, ms, rep, q),
{
    if ms.len() == 0 {
        assert(c.subrange(p, c.len() as int) =~= c.subrange(p, q) + c.subrange(q, c.len() as int));
    } else {
        let s = match_start(c, ms[0]);
        assert(c.subrange(p, s) =~= c.subrange(p, q) + c.subrange(q, s));
        let rest = splice(c, ms.drop_first(), rep, s + ms[0].length);
        assert(c.subrange(p, s) + rep + rest =~= c.subrange(p, q) + (c.subrange(q, s) + rep + rest));
    }
}

/// Replacing matches that lie in order, the last first, each at its place in the original
/// text, replaces each of them: the text between the matches is kept and each match gives
/// way to the replacement. This is why `replace_all` works from the last match back.
pub proof fn lemma_replace_back_splices(c: Seq<u8>, ms: Seq<SearchMatch>, rep: Seq<u8>)
    requires
        matches_in_order(c, ms),
    ensures
        replaced_back(c, c, ms, rep) == splice(c, ms, rep, 0),
    decreases ms.len(),
{
    if ms.len() == 0 {
        assert(c.subrange(0, c.len() as int) =~= c);
    } else {
        let rest = ms.drop_first();
        assert(matches_in_order(c, rest)) by {
            assert forall|i: int| 0 <= i < rest.len() implies 0 <= match_start(c, #[trigger] rest[i])
                && match_start(c, rest[i]) + rest[i].length <= c.len() by {
                assert(rest[i] == ms[i + 1]);
            }
            assert forall|i: int, j: int| 0 <= i < j < rest.len() implies match_start(
                c,
                #[trigger] rest[i],
            ) + rest[i].length <= match_start(c, #[trigger] rest[j]) by {
                assert(rest[i] == ms[i + 1]);
                assert(rest[j] == ms[j + 1]);
            }
        }
        lemma_replace_back_splices(c, rest, rep);
        let s0 = match_start(c, ms[0]);
        let e0 = s0 + ms[0].length;
        assert(0 <= s0 && e0 <= c.len()) by {
            assert(0 <= match_start(c, ms[0]));
        }
        if rest.len() > 0 {
            assert(rest[0] == ms[1]);
            assert(match_start(c, ms[0]) + ms[0].length <= match_start(c, ms[1]));
            assert(match_start(c, ms[1]) + ms[1].length <= c.len());
        }
        lemma_splice_split(c, rest, rep, 0, e0);
        let tail = splice(c, rest, rep, e0);
        let t = c.subrange(0, e0) + tail;
        assert(t.take(s0) =~= c.subrange(0, s0));
        assert(t.skip(e0) =~= tail);
        if s0 >= t.len() {
            assert(t + rep =~= t.take(s0) + rep + t.skip(e0));
        }
    }
}

/// What replacing every match leaves: with no match, or where the replacements would not
/// fit in the limits, the document as it was and the count 0 or `None`; else the count,
/// the text with every match replaced (the last first, each at its place in the text
/// searched), one undo record per replacement, the line index rebuilt and the document
/// dirty.
pub open spec fn replace_all_outcome(
    old: Document,
    new: Document,
    rs: Seq<SearchMatch>,
    rep: Seq<u8>,
    r: Option<u64>,
) -> bool {
    let t = old.piece_table.text();
    if rs.len() == 0 {
        r == Some(0u64) && new == old
    } else if !replace_room(t, old.piece_table.added().len() as int, rs.len() as int, rep.len() as int) {
        r is None && new == old
    } else {
        &&& r == Some(rs.len() as u64)
        &&& new.piece_table.text() == replaced_back(t, t, rs, rep)
        &&& new.piece_table.original_bytes() == old.piece_table.original_bytes()
        &&& new.piece_table.undo_actions() == old.piece_table.undo_actions() + replaced_back_records(
            t,
            t,
            rs,
            rep,
        )
        &&& new.piece_table.added() == old.piece_table.added() + repeated(
            rep,
            replaced_back_records(t, t, rs, rep).len(),
        )
        &&& new.piece_table.redo_actions() == if replaced_back_records(t, t, rs, rep).len() > 0 {
            Seq::<EditRecord>::empty()
        } else {
            old.piece_table.redo_actions()
        }
        &&& reindexed(old, new)
        &&& new.dirty
    }
}

/// Replace all occurrences of query with replacement text; the number of matches replaced.
pub fn replace_all(doc: &mut Document, query: &str, replacement: &str, options: &SearchOptions) -> (r:
    Option<u64>)
    requires
        old(doc).wf(),
    ensures
        exists|rs: Seq<SearchMatch>|
            #[trigger] search_results(old(doc).piece_table.text(), query@, *options, rs)
                && replace_all_outcome(
                *old(doc),
                *final(doc),
                rs,
                vstd::utf8::encode_utf8(replacement@),
                r,
            ),
{
    let content = doc.content_bytes();
    let results = find_all(content.as_slice(), query, options);
    let ghost rs = results@;
    let n = results.len();
    if n == 0 {
        assert(search_results(old(doc).piece_table.text(), query@, *options, rs));
        return Some(0);
    }
    let rep = replacement.as_bytes();
    let grow = match n.checked_mul(rep.len()) {
        Some(g) => g,
        None => {
            assert(search_results(old(doc).piece_table.text(), query@, *options, rs));
            return None;
        },
    };
    let tl = doc.piece_table.len();
    if grow > usize::MAX - doc.piece_table.added_len() || tl > (usize::MAX - grow) as u64 || tl
        > u64::MAX - 0x1_FFFF_FFFE {
        assert(search_results(old(doc).piece_table.text(), query@, *options, rs));
        return None;
    }
    replace_matches(&mut doc.piece_table, content.as_slice(), &results, rep);
    doc.rebuild_after_edit();
    assert(search_results(old(doc).piece_table.text(), query@, *options, rs));
    Some(n as u64)
}

} // verus!

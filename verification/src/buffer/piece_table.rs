//! Piece table: the original text stays read-only, every insertion is appended
//! to an add buffer, and an ordered list of pieces describes the document.
//! Edits are recorded on an undo stack and can be undone and redone.

use std::collections::BTreeMap;
use vstd::prelude::*;
use vstd::slice::slice_to_vec;
use crate::utf8::decode_lossy;

verus! {

/// Identifies which buffer a piece references.
#[derive(Debug, Clone, Copy, PartialEq, Eq, Structural)]
pub enum PieceSource {
    /// The original file content (read-only, UTF-8 converted).
    Original,
    /// The append buffer for user edits.
    AddBuffer,
}

/// A contiguous range of text from a specific source.
#[derive(Debug, Clone, Copy, PartialEq, Eq, Structural)]
pub struct Piece {
    pub source: PieceSource,
    /// Byte offset within the source buffer.
    pub offset: u64,
    /// Byte length of this piece.
    pub length: u64,
}

/// A record for undo/redo.
#[derive(Debug, Clone)]
pub enum EditAction {
    Insert { pos: u64, text: Vec<u8> },
    Delete { pos: u64, length: u64, text: Vec<u8> },
    Replace { pos: u64, old_text: Vec<u8>, new_text: Vec<u8> },
}

/// The mathematical content of an [`EditAction`].
pub enum EditRecord {
    Insert { pos: u64, text: Seq<u8> },
    Delete { pos: u64, length: u64, text: Seq<u8> },
    Replace { pos: u64, old_text: Seq<u8>, new_text: Seq<u8> },
}

impl View for EditAction {
    type V = EditRecord;

    open spec fn view(&self) -> EditRecord {
        match self {
            EditAction::Insert { pos, text } => EditRecord::Insert { pos: *pos, text: text@ },
            EditAction::Delete { pos, length, text } => EditRecord::Delete {
                pos: *pos,
                length: *length,
                text: text@,
            },
            EditAction::Replace { pos, old_text, new_text } => EditRecord::Replace {
                pos: *pos,
                old_text: old_text@,
                new_text: new_text@,
            },
        }
    }
}

// ───────────────────────── text-level meaning of an edit ─────────────────────────

/// The text that results from performing `a` on `c`.
pub open spec fn apply_edit(a: EditRecord, c: Seq<u8>) -> Seq<u8> {
    match a {
        EditRecord::Insert { pos, text } => c.take(pos as int) + text + c.skip(pos as int),
        EditRecord::Delete { pos, length, .. } => c.take(pos as int) + c.skip(pos + length),
        EditRecord::Replace { pos, old_text, new_text } => c.take(pos as int) + new_text + c.skip(
            pos + old_text.len(),
        ),
    }
}

/// The text that results from reverting `a` on `c`.
pub open spec fn revert_edit(a: EditRecord, c: Seq<u8>) -> Seq<u8> {
    match a {
        EditRecord::Insert { pos, text } => c.take(pos as int) + c.skip(pos + text.len()),
        EditRecord::Delete { pos, text, .. } => c.take(pos as int) + text + c.skip(pos as int),
        EditRecord::Replace { pos, old_text, new_text } => c.take(pos as int) + old_text + c.skip(
            pos + new_text.len(),
        ),
    }
}

/// `a` can be performed on `c`, and the text it records as removed is what `c` holds there.
pub open spec fn can_apply(a: EditRecord, c: Seq<u8>) -> bool {
    match a {
        EditRecord::Insert { pos, text } => pos <= c.len() && text.len() > 0,
        EditRecord::Delete { pos, length, text } => {
            &&& 0 < length
            &&& length == text.len()
            &&& pos + length <= c.len()
            &&& c.subrange(pos as int, pos + length) == text
        },
        EditRecord::Replace { pos, old_text, new_text } => {
            &&& pos + old_text.len() <= c.len()
            &&& c.subrange(pos as int, pos + old_text.len()) == old_text
        },
    }
}

/// `c` holds, where `a` wrote, the text that `a` wrote: `a` can be reverted on `c`.
pub open spec fn can_revert(a: EditRecord, c: Seq<u8>) -> bool {
    match a {
        EditRecord::Insert { pos, text } => {
            &&& text.len() > 0
            &&& pos + text.len() <= c.len()
            &&& c.subrange(pos as int, pos + text.len()) == text
        },
        EditRecord::Delete { pos, length, text } => {
            &&& 0 < length
            &&& length == text.len()
            &&& pos <= c.len()
        },
        EditRecord::Replace { pos, old_text, new_text } => {
            &&& pos + new_text.len() <= c.len()
            &&& c.subrange(pos as int, pos + new_text.len()) == new_text
        },
    }
}

/// Every action of the undo stack `us` (the last one first) can be reverted in turn,
/// starting from the text `c`.
pub open spec fn undo_chain(us: Seq<EditRecord>, c: Seq<u8>) -> bool
    decreases us.len(),
{
    us.len() == 0 || (can_revert(us.last(), c) && undo_chain(
        us.drop_last(),
        revert_edit(us.last(), c),
    ))
}

/// Every action of the redo stack `rs` (the last one first) can be performed in turn,
/// starting from the text `c`.
pub open spec fn redo_chain(rs: Seq<EditRecord>, c: Seq<u8>) -> bool
    decreases rs.len(),
{
    rs.len() == 0 || (can_apply(rs.last(), c) && redo_chain(
        rs.drop_last(),
        apply_edit(rs.last(), c),
    ))
}

/// How many bytes reverting `a` adds to the text and to the add buffer, at most.
pub open spec fn undo_growth(a: EditRecord) -> int {
    match a {
        EditRecord::Insert { .. } => 0,
        EditRecord::Delete { text, .. } => text.len() as int,
        EditRecord::Replace { old_text, .. } => old_text.len() as int,
    }
}

/// How many bytes performing `a` adds to the text and to the add buffer, at most.
pub open spec fn redo_growth(a: EditRecord) -> int {
    match a {
        EditRecord::Insert { text, .. } => text.len() as int,
        EditRecord::Delete { .. } => 0,
        EditRecord::Replace { new_text, .. } => new_text.len() as int,
    }
}

// ───────────────────────── pieces ─────────────────────────

/// The buffer that `p` refers to.
pub open spec fn piece_source(p: Piece, original: Seq<u8>, added: Seq<u8>) -> Seq<u8> {
    match p.source {
        PieceSource::Original => original,
        PieceSource::AddBuffer => added,
    }
}

/// The bytes that `p` stands for.
pub open spec fn piece_bytes(p: Piece, original: Seq<u8>, added: Seq<u8>) -> Seq<u8> {
    piece_source(p, original, added).subrange(p.offset as int, p.offset + p.length)
}

/// `p` is non-empty and lies inside its buffer, at offsets that fit in `u64`.
pub open spec fn piece_ok(p: Piece, original: Seq<u8>, added: Seq<u8>) -> bool {
    &&& p.length > 0
    &&& p.offset + p.length <= piece_source(p, original, added).len()
    &&& p.offset + p.length <= u64::MAX
}

/// Every piece of `ps` is non-empty and lies inside its buffer.
pub open spec fn pieces_ok(ps: Seq<Piece>, original: Seq<u8>, added: Seq<u8>) -> bool {
    forall|i: int| 0 <= i < ps.len() ==> piece_ok(#[trigger] ps[i], original, added)
}

/// The document that the pieces `ps` describe.
pub open spec fn pieces_text(ps: Seq<Piece>, original: Seq<u8>, added: Seq<u8>) -> Seq<u8>
    decreases ps.len(),
{
    if ps.len() == 0 {
        Seq::empty()
    } else {
        piece_bytes(ps[0], original, added) + pieces_text(ps.skip(1), original, added)
    }
}

/// Sum of the lengths of the pieces `ps`.
pub open spec fn total_length(ps: Seq<Piece>) -> int
    decreases ps.len(),
{
    if ps.len() == 0 {
        0
    } else {
        ps[0].length + total_length(ps.skip(1))
    }
}

/// The first `k` bytes of `p`.
pub open spec fn piece_prefix(p: Piece, k: int) -> Piece {
    Piece { source: p.source, offset: p.offset, length: k as u64 }
}

/// `p` without its first `k` bytes.
pub open spec fn piece_suffix(p: Piece, k: int) -> Piece {
    Piece { source: p.source, offset: (p.offset + k) as u64, length: (p.length - k) as u64 }
}

/// The pieces after inserting `np` at offset `pos` (relative to the first piece of `ps`):
/// a piece that `pos` falls strictly inside is split in two, and `np` goes before
/// the first piece that starts at or after `pos`.
pub open spec fn insert_pieces(ps: Seq<Piece>, pos: int, np: Piece) -> Seq<Piece>
    decreases ps.len(),
{
    if ps.len() == 0 {
        seq![np]
    } else if pos <= 0 {
        seq![np] + ps
    } else if pos < ps[0].length {
        seq![piece_prefix(ps[0], pos), np, piece_suffix(ps[0], pos)] + ps.skip(1)
    } else {
        seq![ps[0]] + insert_pieces(ps.skip(1), pos - ps[0].length, np)
    }
}

/// The pieces after removing the bytes in `[pos, end)` (offsets relative to the first
/// piece of `ps`): pieces wholly inside go, pieces partly inside are trimmed, and a
/// piece that holds the whole range is split in two.
pub open spec fn delete_pieces(ps: Seq<Piece>, pos: int, end: int) -> Seq<Piece>
    decreases ps.len(),
{
    if ps.len() == 0 {
        Seq::empty()
    } else {
        let p = ps[0];
        let len = p.length as int;
        let rest = delete_pieces(ps.skip(1), pos - len, end - len);
        if len <= pos || end <= 0 {
            seq![p] + rest
        } else if pos <= 0 && len <= end {
            rest
        } else if 0 < pos && end < len {
            seq![piece_prefix(p, pos), piece_suffix(p, end)] + rest
        } else if 0 < pos {
            seq![piece_prefix(p, pos)] + rest
        } else {
            seq![piece_suffix(p, end)] + rest
        }
    }
}

/// The pieces after removing `len` bytes at `pos`, clipped to the document; nothing
/// changes for an empty range or a position at or past the end.
pub open spec fn raw_delete(ps: Seq<Piece>, pos: int, len: int) -> Seq<Piece> {
    let total = total_length(ps);
    if len == 0 || pos >= total {
        ps
    } else {
        delete_pieces(ps, pos, if pos + len < total { pos + len } else { total })
    }
}

/// The pieces after inserting `n` bytes, stored at `add_offset` of the add buffer, at `pos`;
/// nothing changes when `n` is zero.
pub open spec fn raw_insert(ps: Seq<Piece>, pos: int, n: int, add_offset: int) -> Seq<Piece> {
    if n == 0 {
        ps
    } else {
        insert_pieces(
            ps,
            pos,
            Piece { source: PieceSource::AddBuffer, offset: add_offset as u64, length: n as u64 },
        )
    }
}

/// The pieces after reverting `a`, with the add buffer `add_len` bytes long before.
pub open spec fn undo_pieces(a: EditRecord, ps: Seq<Piece>, add_len: int) -> Seq<Piece> {
    match a {
        EditRecord::Insert { pos, text } => raw_delete(ps, pos as int, text.len() as int),
        EditRecord::Delete { pos, text, .. } => raw_insert(
            ps,
            pos as int,
            text.len() as int,
            add_len,
        ),
        EditRecord::Replace { pos, old_text, new_text } => raw_insert(
            raw_delete(ps, pos as int, new_text.len() as int),
            pos as int,
            old_text.len() as int,
            add_len,
        ),
    }
}

/// The pieces after performing `a` again, with the add buffer `add_len` bytes long before.
pub open spec fn redo_pieces(a: EditRecord, ps: Seq<Piece>, add_len: int) -> Seq<Piece> {
    match a {
        EditRecord::Insert { pos, text } => raw_insert(ps, pos as int, text.len() as int, add_len),
        EditRecord::Delete { pos, length, .. } => raw_delete(ps, pos as int, length as int),
        EditRecord::Replace { pos, old_text, new_text } => raw_insert(
            raw_delete(ps, pos as int, old_text.len() as int),
            pos as int,
            new_text.len() as int,
            add_len,
        ),
    }
}

/// The bytes that reverting `a` appends to the add buffer.
pub open spec fn undo_added(a: EditRecord) -> Seq<u8> {
    match a {
        EditRecord::Insert { .. } => Seq::empty(),
        EditRecord::Delete { text, .. } => text,
        EditRecord::Replace { old_text, .. } => old_text,
    }
}

/// The bytes that performing `a` again appends to the add buffer.
pub open spec fn redo_added(a: EditRecord) -> Seq<u8> {
    match a {
        EditRecord::Insert { text, .. } => text,
        EditRecord::Delete { .. } => Seq::empty(),
        EditRecord::Replace { new_text, .. } => new_text,
    }
}

// ───────────────────────── lemmas on pieces ─────────────────────────

proof fn lemma_cons(x: Piece, s: Seq<Piece>, o: Seq<u8>, a: Seq<u8>)
    ensures
        (seq![x] + s).len() > 0,
        (seq![x] + s)[0] == x,
        (seq![x] + s).skip(1) == s,
        pieces_text(seq![x] + s, o, a) == piece_bytes(x, o, a) + pieces_text(s, o, a),
        total_length(seq![x] + s) == x.length + total_length(s),
        pieces_ok(seq![x] + s, o, a) <==> (piece_ok(x, o, a) && pieces_ok(s, o, a)),
{
    let t = seq![x] + s;
    assert(t.skip(1) =~= s);
    if pieces_ok(t, o, a) {
        assert(piece_ok(t[0], o, a));
        assert forall|i: int| 0 <= i < s.len() implies piece_ok(#[trigger] s[i], o, a) by {
            assert(t[i + 1] == s[i]);
        }
    }
    if piece_ok(x, o, a) && pieces_ok(s, o, a) {
        assert forall|i: int| 0 <= i < t.len() implies piece_ok(#[trigger] t[i], o, a) by {
            if i > 0 {
                assert(t[i] == s[i - 1]);
            }
        }
    }
}

proof fn lemma_skip_step(ps: Seq<Piece>, i: int)
    requires
        0 <= i < ps.len(),
    ensures
        ps.skip(i) == seq![ps[i]] + ps.skip(i + 1),
{
    assert(ps.skip(i) =~= seq![ps[i]] + ps.skip(i + 1));
}

proof fn lemma_pieces_ok_skip(ps: Seq<Piece>, i: int, o: Seq<u8>, a: Seq<u8>)
    requires
        pieces_ok(ps, o, a),
        0 <= i <= ps.len(),
    ensures
        pieces_ok(ps.skip(i), o, a),
{
    assert forall|j: int| 0 <= j < ps.skip(i).len() implies piece_ok(
        #[trigger] ps.skip(i)[j],
        o,
        a,
    ) by {
        assert(ps.skip(i)[j] == ps[i + j]);
    }
}

proof fn lemma_text_len(ps: Seq<Piece>, o: Seq<u8>, a: Seq<u8>)
    requires
        pieces_ok(ps, o, a),
    ensures
        pieces_text(ps, o, a).len() == total_length(ps),
        total_length(ps) >= 0,
    decreases ps.len(),
{
    if ps.len() > 0 {
        lemma_pieces_ok_skip(ps, 1, o, a);
        lemma_text_len(ps.skip(1), o, a);
        assert(piece_ok(ps[0], o, a));
    }
}

proof fn lemma_total_nonneg(ps: Seq<Piece>)
    ensures
        total_length(ps) >= 0,
    decreases ps.len(),
{
    if ps.len() > 0 {
        lemma_total_nonneg(ps.skip(1));
    }
}

/// Appending to the add buffer leaves what existing pieces stand for unchanged.
proof fn lemma_extend_added(ps: Seq<Piece>, o: Seq<u8>, a: Seq<u8>, t: Seq<u8>)
    requires
        pieces_ok(ps, o, a),
    ensures
        pieces_ok(ps, o, a + t),
        pieces_text(ps, o, a + t) == pieces_text(ps, o, a),
    decreases ps.len(),
{
    assert forall|i: int| 0 <= i < ps.len() implies piece_ok(#[trigger] ps[i], o, a + t) by {
        assert(piece_ok(ps[i], o, a));
    }
    if ps.len() > 0 {
        lemma_pieces_ok_skip(ps, 1, o, a);
        lemma_extend_added(ps.skip(1), o, a, t);
        let p = ps[0];
        assert(piece_ok(p, o, a));
        assert(piece_bytes(p, o, a + t) =~= piece_bytes(p, o, a));
    }
}

proof fn lemma_split_piece(p: Piece, k: int, o: Seq<u8>, a: Seq<u8>)
    requires
        piece_ok(p, o, a),
        0 < k < p.length,
    ensures
        piece_ok(piece_prefix(p, k), o, a),
        piece_ok(piece_suffix(p, k), o, a),
        piece_bytes(piece_prefix(p, k), o, a) == piece_bytes(p, o, a).take(k),
        piece_bytes(piece_suffix(p, k), o, a) == piece_bytes(p, o, a).skip(k),
{
    let src = piece_source(p, o, a);
    assert(piece_bytes(piece_prefix(p, k), o, a) =~= piece_bytes(p, o, a).take(k));
    assert(piece_bytes(piece_suffix(p, k), o, a) =~= piece_bytes(p, o, a).skip(k));
}

/// What inserting a piece does to the document.
#[verifier::rlimit(100)]
pub proof fn lemma_insert_pieces(ps: Seq<Piece>, pos: int, np: Piece, o: Seq<u8>, a: Seq<u8>)
    requires
        pieces_ok(ps, o, a),
        piece_ok(np, o, a),
        0 <= pos <= total_length(ps),
    ensures
        pieces_ok(insert_pieces(ps, pos, np), o, a),
        total_length(insert_pieces(ps, pos, np)) == total_length(ps) + np.length,
        pieces_text(insert_pieces(ps, pos, np), o, a) == pieces_text(ps, o, a).take(pos)
            + piece_bytes(np, o, a) + pieces_text(ps, o, a).skip(pos),
    decreases ps.len(),
{
    lemma_text_len(ps, o, a);
    let t = pieces_text(ps, o, a);
    let nb = piece_bytes(np, o, a);
    if ps.len() == 0 {
        lemma_cons(np, ps, o, a);
        assert(seq![np] + ps =~= seq![np]);
        assert(t.take(pos) + nb + t.skip(pos) =~= nb + t);
    } else if pos <= 0 {
        lemma_cons(np, ps, o, a);
        assert(t.take(pos) + nb + t.skip(pos) =~= nb + t);
    } else if pos < ps[0].length {
        let p = ps[0];
        let rest = ps.skip(1);
        lemma_cons(p, rest, o, a);
        assert(seq![p] + rest =~= ps);
        lemma_pieces_ok_skip(ps, 1, o, a);
        assert(piece_ok(p, o, a));
        lemma_split_piece(p, pos, o, a);
        let pre = piece_prefix(p, pos);
        let suf = piece_suffix(p, pos);
        lemma_cons(suf, rest, o, a);
        lemma_cons(np, seq![suf] + rest, o, a);
        lemma_cons(pre, seq![np] + (seq![suf] + rest), o, a);
        assert(seq![pre, np, suf] + rest =~= seq![pre] + (seq![np] + (seq![suf] + rest)));
        let pb = piece_bytes(p, o, a);
        let rt = pieces_text(rest, o, a);
        lemma_text_len(rest, o, a);
        assert(t == pb + rt);
        assert(t.take(pos) =~= pb.take(pos));
        assert(t.skip(pos) =~= pb.skip(pos) + rt);
        assert(pieces_text(insert_pieces(ps, pos, np), o, a) =~= t.take(pos) + nb + t.skip(pos));
    } else {
        let p = ps[0];
        let rest = ps.skip(1);
        lemma_cons(p, rest, o, a);
        assert(seq![p] + rest =~= ps);
        lemma_pieces_ok_skip(ps, 1, o, a);
        assert(piece_ok(p, o, a));
        lemma_insert_pieces(rest, pos - p.length, np, o, a);
        let ins = insert_pieces(rest, pos - p.length, np);
        lemma_cons(p, ins, o, a);
        let pb = piece_bytes(p, o, a);
        let rt = pieces_text(rest, o, a);
        assert(pb.len() == p.length);
        assert(t == pb + rt);
        assert(t.take(pos) =~= pb + rt.take(pos - p.length));
        assert(t.skip(pos) =~= rt.skip(pos - p.length));
        assert(pieces_text(insert_pieces(ps, pos, np), o, a) =~= t.take(pos) + nb + t.skip(pos));
    }
}

/// The offset `x` clipped to `[0, t]`.
pub open spec fn clip(x: int, t: int) -> int {
    if x < 0 {
        0
    } else if x > t {
        t
    } else {
        x
    }
}

/// What removing a range of pieces does to the document.
#[verifier::rlimit(100)]
pub proof fn lemma_delete_pieces(ps: Seq<Piece>, pos: int, end: int, o: Seq<u8>, a: Seq<u8>)
    requires
        pieces_ok(ps, o, a),
        pos <= end,
    ensures
        pieces_ok(delete_pieces(ps, pos, end), o, a),
        total_length(delete_pieces(ps, pos, end)) == total_length(ps) - (clip(
            end,
            total_length(ps),
        ) - clip(pos, total_length(ps))),
        pieces_text(delete_pieces(ps, pos, end), o, a) == pieces_text(ps, o, a).take(
            clip(pos, total_length(ps)),
        ) + pieces_text(ps, o, a).skip(clip(end, total_length(ps))),
    decreases ps.len(),
{
    lemma_text_len(ps, o, a);
    let t = pieces_text(ps, o, a);
    let tot = total_length(ps);
    if ps.len() == 0 {
        assert(t.take(0) + t.skip(0) =~= t);
    } else {
        let p = ps[0];
        let len = p.length as int;
        let rest = ps.skip(1);
        lemma_cons(p, rest, o, a);
        assert(seq![p] + rest =~= ps);
        lemma_pieces_ok_skip(ps, 1, o, a);
        assert(piece_ok(p, o, a));
        lemma_delete_pieces(rest, pos - len, end - len, o, a);
        lemma_text_len(rest, o, a);
        let dr = delete_pieces(rest, pos - len, end - len);
        let pb = piece_bytes(p, o, a);
        let rt = pieces_text(rest, o, a);
        let rtot = total_length(rest);
        assert(t == pb + rt);
        assert(pb.len() == len);
        let cp = clip(pos, tot);
        let ce = clip(end, tot);
        let rcp = clip(pos - len, rtot);
        let rce = clip(end - len, rtot);
        let res = delete_pieces(ps, pos, end);
        if len <= pos || end <= 0 {
            lemma_cons(p, dr, o, a);
            if len <= pos {
                assert(cp == rcp + len);
                assert(ce == rce + len);
                assert(t.take(cp) =~= pb + rt.take(rcp));
                assert(t.skip(ce) =~= rt.skip(rce));
                assert(pieces_text(res, o, a) =~= t.take(cp) + t.skip(ce));
            } else {
                assert(cp == 0 && ce == 0);
                assert(rcp == 0 && rce == 0);
                assert(rt.take(0) + rt.skip(0) =~= rt);
                assert(t.take(cp) + t.skip(ce) =~= t);
            }
        } else if pos <= 0 && len <= end {
            assert(cp == 0);
            assert(rcp == 0);
            assert(ce == rce + len);
            assert(t.take(cp) + t.skip(ce) =~= rt.take(rcp) + rt.skip(rce));
        } else if 0 < pos && end < len {
            lemma_split_piece(p, pos, o, a);
            lemma_split_piece(p, end, o, a);
            let pre = piece_prefix(p, pos);
            let suf = piece_suffix(p, end);
            lemma_cons(suf, dr, o, a);
            lemma_cons(pre, seq![suf] + dr, o, a);
            assert(seq![pre, suf] + dr =~= seq![pre] + (seq![suf] + dr));
            assert(rcp == 0 && rce == 0);
            assert(rt.take(0) + rt.skip(0) =~= rt);
            assert(cp == pos && ce == end);
            assert(t.take(cp) =~= pb.take(pos));
            assert(t.skip(ce) =~= pb.skip(end) + rt);
            assert(pieces_text(res, o, a) =~= t.take(cp) + t.skip(ce));
        } else if 0 < pos {
            lemma_split_piece(p, pos, o, a);
            let pre = piece_prefix(p, pos);
            lemma_cons(pre, dr, o, a);
            assert(rcp == 0);
            assert(ce == rce + len);
            assert(t.take(cp) =~= pb.take(pos));
            assert(t.skip(ce) =~= rt.skip(rce));
            assert(pieces_text(res, o, a) =~= t.take(cp) + t.skip(ce));
        } else {
            lemma_split_piece(p, end, o, a);
            let suf = piece_suffix(p, end);
            lemma_cons(suf, dr, o, a);
            assert(cp == 0 && rcp == 0 && rce == 0);
            assert(rt.take(0) + rt.skip(0) =~= rt);
            assert(t.skip(ce) =~= pb.skip(end) + rt);
            assert(pieces_text(res, o, a) =~= t.take(cp) + t.skip(ce));
        }
    }
}

/// Reverting then performing an edit again gives back the text it was reverted from.
pub proof fn lemma_revert_then_apply(a: EditRecord, c: Seq<u8>)
    requires
        can_revert(a, c),
    ensures
        can_apply(a, revert_edit(a, c)),
        apply_edit(a, revert_edit(a, c)) == c,
{
    let r = revert_edit(a, c);
    match a {
        EditRecord::Insert { pos, text } => {
            assert(r.take(pos as int) =~= c.take(pos as int));
            assert(r.skip(pos as int) =~= c.skip(pos + text.len()));
            assert(c =~= c.take(pos as int) + c.subrange(pos as int, pos + text.len()) + c.skip(
                pos + text.len(),
            ));
        },
        EditRecord::Delete { pos, length, text } => {
            assert(r.take(pos as int) =~= c.take(pos as int));
            assert(r.subrange(pos as int, pos + length) =~= text);
            assert(r.skip(pos + length) =~= c.skip(pos as int));
            assert(c =~= c.take(pos as int) + c.skip(pos as int));
        },
        EditRecord::Replace { pos, old_text, new_text } => {
            assert(r.take(pos as int) =~= c.take(pos as int));
            assert(r.subrange(pos as int, pos + old_text.len()) =~= old_text);
            assert(r.skip(pos + old_text.len()) =~= c.skip(pos + new_text.len()));
            let k = pos + new_text.len();
            assert(c.take(pos as int) + c.subrange(pos as int, k) =~= c.take(k));
            assert(c.take(k) + c.skip(k) =~= c);
        },
    }
}

/// Performing then reverting an edit gives back the text it was performed on.
pub proof fn lemma_apply_then_revert(a: EditRecord, c: Seq<u8>)
    requires
        can_apply(a, c),
    ensures
        can_revert(a, apply_edit(a, c)),
        revert_edit(a, apply_edit(a, c)) == c,
{
    let r = apply_edit(a, c);
    match a {
        EditRecord::Insert { pos, text } => {
            assert(r.subrange(pos as int, pos + text.len()) =~= text);
            assert(r.take(pos as int) =~= c.take(pos as int));
            assert(r.skip(pos + text.len()) =~= c.skip(pos as int));
            assert(c =~= c.take(pos as int) + c.skip(pos as int));
        },
        EditRecord::Delete { pos, length, text } => {
            assert(r.take(pos as int) =~= c.take(pos as int));
            assert(r.skip(pos as int) =~= c.skip(pos + length));
            assert(c =~= c.take(pos as int) + c.subrange(pos as int, pos + length) + c.skip(
                pos + length,
            ));
        },
        EditRecord::Replace { pos, old_text, new_text } => {
            assert(r.subrange(pos as int, pos + new_text.len()) =~= new_text);
            assert(r.take(pos as int) =~= c.take(pos as int));
            assert(r.skip(pos + new_text.len()) =~= c.skip(pos + old_text.len()));
            assert(c =~= c.take(pos as int) + c.subrange(pos as int, pos + old_text.len()) + c.skip(
                pos + old_text.len(),
            ));
        },
    }
}

// ───────────────────────── the piece table ─────────────────────────

proof fn lemma_read_step(ps: Seq<Piece>, i: int, current: int, o: Seq<u8>, a: Seq<u8>, t: Seq<u8>)
    requires
        0 <= i < ps.len(),
        pieces_ok(ps, o, a),
        0 <= current,
        current + total_length(ps.skip(i)) == t.len(),
        pieces_text(ps.skip(i), o, a) == t.subrange(current, t.len() as int),
    ensures
        piece_ok(ps[i], o, a),
        piece_bytes(ps[i], o, a) == t.subrange(current, current + ps[i].length),
        pieces_text(ps.skip(i + 1), o, a) == t.subrange(current + ps[i].length, t.len() as int),
        current + ps[i].length + total_length(ps.skip(i + 1)) == t.len(),
        total_length(ps.skip(i + 1)) >= 0,
{
    let piece = ps[i];
    let rest = ps.skip(i + 1);
    lemma_skip_step(ps, i);
    lemma_cons(piece, rest, o, a);
    lemma_total_nonneg(rest);
    lemma_pieces_ok_skip(ps, i + 1, o, a);
    lemma_text_len(rest, o, a);
    assert(piece_ok(ps[i], o, a));
    let pb = piece_bytes(piece, o, a);
    let pr = pieces_text(rest, o, a);
    let z = t.subrange(current, t.len() as int);
    assert(pb + pr == z);
    assert(pb.len() == piece.length);
    assert(pb =~= z.subrange(0, piece.length as int));
    assert(pr =~= z.subrange(piece.length as int, z.len() as int));
    assert(pb =~= t.subrange(current, current + piece.length));
    assert(pr =~= t.subrange(current + piece.length, t.len() as int));
}

/// The records of a stack of edit actions.
pub open spec fn records(s: Seq<EditAction>) -> Seq<EditRecord> {
    s.map_values(|a: EditAction| a@)
}

proof fn lemma_records_push(s: Seq<EditAction>, x: EditAction)
    ensures
        records(s.push(x)) == records(s).push(x@),
        records(s.push(x)).last() == x@,
        records(s.push(x)).drop_last() == records(s),
{
    assert(records(s.push(x)) =~= records(s).push(x@));
    assert(records(s).push(x@).drop_last() =~= records(s));
}

proof fn lemma_records_empty(s: Seq<EditAction>)
    requires
        s.len() == 0,
    ensures
        records(s) == Seq::<EditRecord>::empty(),
{
    assert(records(s) =~= Seq::<EditRecord>::empty());
}

/// The bytes of `t` at `[pos, pos + len)`, clipped to `t`; empty for an empty range or a
/// position at or past the end.
pub open spec fn read_spec(t: Seq<u8>, pos: int, len: int) -> Seq<u8> {
    if len == 0 || pos >= t.len() {
        Seq::empty()
    } else {
        t.subrange(pos, if pos + len < t.len() { pos + len } else { t.len() as int })
    }
}

/// `pos` clipped to the length of `t`.
pub open spec fn clamp_pos(pos: u64, t: Seq<u8>) -> u64 {
    if pos < t.len() {
        pos
    } else {
        t.len() as u64
    }
}

/// Appends `src` to `dst`.
fn append_bytes(dst: &mut Vec<u8>, src: &[u8])
    ensures
        final(dst)@ == old(dst)@ + src@,
{
    dst.extend_from_slice(src);
    assert(final(dst)@ =~= old(dst)@ + src@);
}

/// The pieces of `ps` keyed by logical offset, the first one starting at `start`.
pub open spec fn keyed_from(ps: Seq<Piece>, start: int) -> Map<u64, Piece>
    decreases ps.len(),
{
    if ps.len() == 0 {
        Map::empty()
    } else {
        keyed_from(ps.skip(1), start + ps[0].length).insert(start as u64, ps[0])
    }
}

/// No piece of `ps` is empty.
pub open spec fn lengths_positive(ps: Seq<Piece>) -> bool {
    forall|i: int| 0 <= i < ps.len() ==> #[trigger] ps[i].length > 0
}

proof fn lemma_lengths_rest(ps: Seq<Piece>)
    requires
        lengths_positive(ps),
        ps.len() > 0,
    ensures
        lengths_positive(ps.skip(1)),
        ps[0].length > 0,
        total_length(ps) == ps[0].length + total_length(ps.skip(1)),
        total_length(ps.skip(1)) >= 0,
{
    let rest = ps.skip(1);
    assert forall|i: int| 0 <= i < rest.len() implies #[trigger] rest[i].length > 0 by {
        assert(rest[i] == ps[i + 1]);
    }
    lemma_total_nonneg(rest);
}

/// Pieces that lie in their buffers are not empty.
proof fn lemma_ok_positive(ps: Seq<Piece>, o: Seq<u8>, a: Seq<u8>)
    requires
        pieces_ok(ps, o, a),
    ensures
        lengths_positive(ps),
{
    assert forall|i: int| 0 <= i < ps.len() implies #[trigger] ps[i].length > 0 by {
        assert(piece_ok(ps[i], o, a));
    }
}

/// The keys of the keyed pieces: one per piece, each in `[start, start + total)`.
proof fn lemma_keyed_dom(ps: Seq<Piece>, start: int)
    requires
        lengths_positive(ps),
        0 <= start,
        start + total_length(ps) <= u64::MAX,
    ensures
        keyed_from(ps, start).dom().finite(),
        keyed_from(ps, start).dom().len() == ps.len(),
        forall|k: u64|
            #[trigger] keyed_from(ps, start).dom().contains(k) ==> start <= k < start + total_length(
                ps,
            ),
    decreases ps.len(),
{
    if ps.len() > 0 {
        let rest = ps.skip(1);
        lemma_lengths_rest(ps);
        lemma_keyed_dom(rest, start + ps[0].length);
        assert(!keyed_from(rest, start + ps[0].length).dom().contains(start as u64));
    }
}

/// Piece `i` is keyed by its logical offset: the total length before it.
proof fn lemma_keyed_lookup(ps: Seq<Piece>, start: int, i: int)
    requires
        lengths_positive(ps),
        0 <= start,
        start + total_length(ps) <= u64::MAX,
        0 <= i < ps.len(),
    ensures
        keyed_from(ps, start).contains_key((start + total_length(ps) - total_length(ps.skip(i))) as u64),
        keyed_from(ps, start)[(start + total_length(ps) - total_length(ps.skip(i))) as u64] == ps[i],
    decreases i,
{
    let rest = ps.skip(1);
    lemma_lengths_rest(ps);
    if i == 0 {
        assert(ps.skip(0) =~= ps);
    } else {
        assert(ps.skip(i) =~= rest.skip(i - 1));
        lemma_keyed_lookup(rest, start + ps[0].length, i - 1);
        lemma_keyed_dom(rest, start + ps[0].length);
    }
}

/// Piece Table: an efficient data structure for text editing.
///
/// Stores the original text as read-only, and all edits go to an append-only
/// add buffer. The pieces, keyed by their logical offset, describe the document.
pub struct PieceTable {
    /// Original file content (UTF-8).
    original: Vec<u8>,
    /// Append buffer for edits.
    add_buffer: Vec<u8>,
    /// Pieces keyed by logical offset: each key is the summed length of the pieces before.
    piece_map: BTreeMap<u64, Piece>,
    /// The pieces in document order, as the keys order them.
    pieces: Ghost<Seq<Piece>>,
    /// Total logical length in bytes.
    total_len: u64,
    /// Undo stack.
    undo_stack: Vec<EditAction>,
    /// Redo stack.
    redo_stack: Vec<EditAction>,
}

impl PieceTable {
    /// The document.
    pub closed spec fn text(&self) -> Seq<u8> {
        pieces_text(self.pieces@, self.original@, self.add_buffer@)
    }

    /// The pieces, in document order.
    pub closed spec fn piece_seq(&self) -> Seq<Piece> {
        self.pieces@
    }

    /// The read-only original content.
    pub closed spec fn original_bytes(&self) -> Seq<u8> {
        self.original@
    }

    /// The add buffer.
    pub closed spec fn added(&self) -> Seq<u8> {
        self.add_buffer@
    }

    /// The undo stack, oldest edit first.
    pub closed spec fn undo_actions(&self) -> Seq<EditRecord> {
        records(self.undo_stack@)
    }

    /// The redo stack, the edit undone first at the bottom.
    pub closed spec fn redo_actions(&self) -> Seq<EditRecord> {
        records(self.redo_stack@)
    }

    /// Well-formedness: pieces lie inside their buffers, the cached length is the
    /// document's, and both stacks can be replayed from the current document.
    pub closed spec fn wf(&self) -> bool {
        &&& pieces_ok(self.pieces@, self.original@, self.add_buffer@)
        &&& self.map_ok()
        &&& self.total_len == total_length(self.pieces@)
        &&& self.total_len <= usize::MAX
        &&& self.original@.len() <= usize::MAX
        &&& self.add_buffer@.len() <= usize::MAX
        &&& undo_chain(self.undo_actions(), self.text())
        &&& redo_chain(self.redo_actions(), self.text())
    }

    /// The map holds each piece under its logical offset.
    pub closed spec fn map_ok(&self) -> bool {
        self.piece_map@ == keyed_from(self.pieces@, 0)
    }

    /// The document and the add buffer can both grow by `n` bytes within `usize`.
    pub open spec fn room_for(&self, n: int) -> bool {
        &&& self.text().len() + n <= usize::MAX
        &&& self.added().len() + n <= usize::MAX
    }

    /// Reverting the latest edit stays within the `usize` limits.
    pub open spec fn undo_room(&self) -> bool {
        self.undo_actions().len() > 0 ==> self.room_for(undo_growth(self.undo_actions().last()))
    }

    /// Performing the latest undone edit again stays within the `usize` limits.
    pub open spec fn redo_room(&self) -> bool {
        self.redo_actions().len() > 0 ==> self.room_for(redo_growth(self.redo_actions().last()))
    }

    proof fn lemma_wf_text(&self)
        requires
            self.wf(),
        ensures
            self.text().len() == self.total_len,
    {
        lemma_text_len(self.pieces@, self.original@, self.add_buffer@);
    }
}

impl PieceTable {
    /// The pieces in document order, read from the map by their keys.
    fn ordered_pieces(&self) -> (v: Vec<Piece>)
        requires
            self.map_ok(),
            lengths_positive(self.pieces@),
            total_length(self.pieces@) <= u64::MAX,
        ensures
            v@ == self.pieces@,
    {
        let ghost ps = self.pieces@;
        proof {
            lemma_keyed_dom(ps, 0);
            lemma_total_nonneg(ps);
            assert(ps.skip(0) =~= ps);
            assert(ps.take(0) =~= Seq::<Piece>::empty());
        }
        let n = self.piece_map.len();
        let mut v: Vec<Piece> = Vec::new();
        let mut key: u64 = 0;
        let mut i: usize = 0;
        while i < n
            invariant
                ps == self.pieces@,
                self.piece_map@ == keyed_from(ps, 0),
                lengths_positive(ps),
                total_length(ps) <= u64::MAX,
                n == ps.len(),
                i <= n,
                v@ == ps.take(i as int),
                key + total_length(ps.skip(i as int)) == total_length(ps),
            decreases n - i,
        {
            proof {
                lemma_keyed_lookup(ps, 0, i as int);
                lemma_skip_step(ps, i as int);
                lemma_cons(ps[i as int], ps.skip(i + 1), Seq::empty(), Seq::empty());
                lemma_total_nonneg(ps.skip(i + 1));
            }
            let p = *self.piece_map.get(&key).unwrap();
            v.push(p);
            key = key + p.length;
            i = i + 1;
            proof {
                assert(v@ =~= ps.take(i as int));
            }
        }
        proof {
            assert(ps.take(n as int) =~= ps);
        }
        v
    }

    /// Store `v` as the pieces, each keyed by its logical offset.
    fn set_pieces(&mut self, v: Vec<Piece>)
        requires
            lengths_positive(v@),
            total_length(v@) <= u64::MAX,
        ensures
            final(self).pieces@ == v@,
            final(self).map_ok(),
            final(self).original == old(self).original,
            final(self).add_buffer == old(self).add_buffer,
            final(self).total_len == old(self).total_len,
            final(self).undo_stack == old(self).undo_stack,
            final(self).redo_stack == old(self).redo_stack,
    {
        let ghost vs = v@;
        let n = v.len();
        // The logical offset of each piece.
        let mut starts: Vec<u64> = Vec::new();
        let mut key: u64 = 0;
        let mut i: usize = 0;
        proof {
            lemma_total_nonneg(vs);
            assert(vs.skip(0) =~= vs);
        }
        while i < n
            invariant
                vs == v@,
                n == vs.len(),
                i <= n,
                total_length(vs) <= u64::MAX,
                starts@.len() == i,
                key + total_length(vs.skip(i as int)) == total_length(vs),
                forall|j: int|
                    0 <= j < i ==> #[trigger] starts@[j] + total_length(vs.skip(j)) == total_length(vs),
            decreases n - i,
        {
            proof {
                lemma_skip_step(vs, i as int);
                lemma_cons(vs[i as int], vs.skip(i + 1), Seq::empty(), Seq::empty());
                lemma_total_nonneg(vs.skip(i + 1));
            }
            starts.push(key);
            key = key + v[i].length;
            i = i + 1;
        }
        let mut map: BTreeMap<u64, Piece> = BTreeMap::new();
        let mut k: usize = n;
        proof {
            assert(vs.skip(n as int) =~= Seq::<Piece>::empty());
        }
        while k > 0
            invariant
                vs == v@,
                n == vs.len(),
                k <= n,
                starts@.len() == n,
                forall|j: int|
                    0 <= j < n ==> #[trigger] starts@[j] + total_length(vs.skip(j)) == total_length(vs),
                map@ == keyed_from(vs.skip(k as int), total_length(vs) - total_length(vs.skip(k as int))),
            decreases k,
        {
            k = k - 1;
            proof {
                lemma_skip_step(vs, k as int);
                lemma_cons(vs[k as int], vs.skip(k + 1), Seq::empty(), Seq::empty());
                assert(vs.skip(k as int).skip(1) =~= vs.skip(k + 1));
                assert(vs.skip(k as int)[0] == vs[k as int]);
                assert(starts@[k as int] + total_length(vs.skip(k as int)) == total_length(vs));
            }
            map.insert(starts[k], v[k]);
        }
        proof {
            assert(vs.skip(0) =~= vs);
        }
        self.piece_map = map;
        self.pieces = Ghost(vs);
    }
}

impl PieceTable {
    /// Insert a piece at logical position `pos`, splitting existing pieces as needed.
    fn insert_piece_at(&mut self, pos: u64, new_piece: Piece)
        requires
            pieces_ok(old(self).pieces@, old(self).original@, old(self).add_buffer@),
            old(self).map_ok(),
            piece_ok(new_piece, old(self).original@, old(self).add_buffer@),
            pos <= total_length(old(self).pieces@),
            total_length(old(self).pieces@) + new_piece.length <= u64::MAX,
        ensures
            final(self).pieces@ == insert_pieces(old(self).pieces@, pos as int, new_piece),
            final(self).map_ok(),
            final(self).original == old(self).original,
            final(self).add_buffer == old(self).add_buffer,
            final(self).total_len == old(self).total_len,
            final(self).undo_stack == old(self).undo_stack,
            final(self).redo_stack == old(self).redo_stack,
    {
        let ghost ps = self.pieces@;
        let ghost o = self.original@;
        let ghost a = self.add_buffer@;
        proof {
            lemma_ok_positive(ps, o, a);
        }
        let pieces = self.ordered_pieces();
        let n = pieces.len();
        let mut result: Vec<Piece> = Vec::new();
        let mut inserted = false;
        let mut current: u64 = 0;
        let mut i: usize = 0;
        proof {
            lemma_total_nonneg(ps);
            assert(ps.skip(0) =~= ps);
        }
        while i < n
            invariant
                ps == self.pieces@,
                pieces@ == ps,
                o == self.original@,
                a == self.add_buffer@,
                n == ps.len(),
                i <= n,
                pieces_ok(ps, o, a),
                total_length(ps) <= u64::MAX,
                current + total_length(ps.skip(i as int)) == total_length(ps),
                !inserted ==> result@ + insert_pieces(ps.skip(i as int), pos - current, new_piece)
                    == insert_pieces(ps, pos as int, new_piece),
                inserted ==> result@ + ps.skip(i as int) == insert_pieces(
                    ps,
                    pos as int,
                    new_piece,
                ),
            decreases n - i,
        {
            let piece = pieces[i];
            let ghost rest = ps.skip(i + 1);
            let ghost before = result@;
            proof {
                lemma_skip_step(ps, i as int);
                lemma_cons(piece, rest, o, a);
                lemma_total_nonneg(rest);
                assert(piece_ok(ps[i as int], o, a));
            }
            let piece_start = current;
            let piece_end = current + piece.length;
            if !inserted && pos <= piece_start {
                result.push(new_piece);
                inserted = true;
                result.push(piece);
                proof {
                    assert(result@ + rest =~= before + (seq![new_piece] + (seq![piece] + rest)));
                    assert(seq![new_piece] + (seq![piece] + rest) =~= seq![new_piece] + ps.skip(
                        i as int,
                    ));
                }
            } else if !inserted && pos > piece_start && pos < piece_end {
                let split_at = pos - piece_start;
                result.push(
                    Piece { source: piece.source, offset: piece.offset, length: split_at },
                );
                result.push(new_piece);
                inserted = true;
                result.push(
                    Piece {
                        source: piece.source,
                        offset: piece.offset + split_at,
                        length: piece.length - split_at,
                    },
                );
                proof {
                    let rel = pos - current;
                    assert(result@ + rest =~= before + (seq![
                        piece_prefix(piece, rel),
                        new_piece,
                        piece_suffix(piece, rel),
                    ] + rest));
                }
            } else {
                result.push(piece);
                proof {
                    if inserted {
                        assert(result@ + rest =~= before + ps.skip(i as int));
                    } else {
                        let rel = pos - current;
                        assert(result@ + insert_pieces(rest, rel - piece.length, new_piece)
                            =~= before + (seq![piece] + insert_pieces(
                            rest,
                            rel - piece.length,
                            new_piece,
                        )));
                    }
                }
            }
            current = piece_end;
            i = i + 1;
        }
        if !inserted {
            let ghost before = result@;
            result.push(new_piece);
            proof {
                assert(ps.skip(n as int) =~= Seq::<Piece>::empty());
                assert(result@ =~= before + insert_pieces(ps.skip(n as int), pos - current, new_piece));
            }
        } else {
            proof {
                assert(ps.skip(n as int) =~= Seq::<Piece>::empty());
                assert(result@ =~= result@ + ps.skip(n as int));
            }
        }
        proof {
            lemma_insert_pieces(ps, pos as int, new_piece, o, a);
            lemma_ok_positive(result@, o, a);
        }
        self.set_pieces(result);
    }

    /// Delete `len` bytes at logical position `pos` (internal, no undo recording).
    fn delete_range_internal(&mut self, pos: u64, len: u64)
        requires
            pieces_ok(old(self).pieces@, old(self).original@, old(self).add_buffer@),
            old(self).map_ok(),
            old(self).total_len == total_length(old(self).pieces@),
            pos + len <= u64::MAX,
        ensures
            final(self).pieces@ == raw_delete(old(self).pieces@, pos as int, len as int),
            final(self).map_ok(),
            final(self).original == old(self).original,
            final(self).add_buffer == old(self).add_buffer,
            final(self).total_len == old(self).total_len,
            final(self).undo_stack == old(self).undo_stack,
            final(self).redo_stack == old(self).redo_stack,
    {
        if len == 0 || pos >= self.total_len {
            return;
        }
        let end = if pos + len < self.total_len {
            pos + len
        } else {
            self.total_len
        };
        let ghost ps = self.pieces@;
        let ghost o = self.original@;
        let ghost a = self.add_buffer@;
        proof {
            lemma_ok_positive(ps, o, a);
        }
        let pieces = self.ordered_pieces();
        let n = pieces.len();
        let mut result: Vec<Piece> = Vec::new();
        let mut current: u64 = 0;
        let mut i: usize = 0;
        proof {
            lemma_total_nonneg(ps);
            assert(ps.skip(0) =~= ps);
        }
        while i < n
            invariant
                ps == self.pieces@,
                pieces@ == ps,
                o == self.original@,
                a == self.add_buffer@,
                n == ps.len(),
                i <= n,
                pieces_ok(ps, o, a),
                total_length(ps) <= u64::MAX,
                pos < end,
                current + total_length(ps.skip(i as int)) == total_length(ps),
                result@ + delete_pieces(ps.skip(i as int), pos - current, end - current)
                    == delete_pieces(ps, pos as int, end as int),
            decreases n - i,
        {
            let piece = pieces[i];
            let ghost rest = ps.skip(i + 1);
            let ghost before = result@;
            let ghost rel_pos = pos - current;
            let ghost rel_end = end - current;
            let ghost tail = delete_pieces(rest, rel_pos - piece.length, rel_end - piece.length);
            proof {
                lemma_skip_step(ps, i as int);
                lemma_cons(piece, rest, o, a);
                lemma_total_nonneg(rest);
                assert(piece_ok(ps[i as int], o, a));
            }
            let piece_start = current;
            let piece_end = current + piece.length;
            if piece_end <= pos || piece_start >= end {
                result.push(piece);
                proof {
                    assert(result@ + tail =~= before + (seq![piece] + tail));
                }
            } else if piece_start >= pos && piece_end <= end {
                // Entirely within the deleted range: dropped.
            } else if piece_start < pos && piece_end > end {
                let left_len = pos - piece_start;
                let right_start_in_piece = end - piece_start;
                let right_len = piece.length - right_start_in_piece;
                result.push(Piece { source: piece.source, offset: piece.offset, length: left_len });
                result.push(
                    Piece {
                        source: piece.source,
                        offset: piece.offset + right_start_in_piece,
                        length: right_len,
                    },
                );
                proof {
                    assert(result@ + tail =~= before + (seq![
                        piece_prefix(piece, rel_pos),
                        piece_suffix(piece, rel_end),
                    ] + tail));
                }
            } else if piece_start < pos {
                let keep_len = pos - piece_start;
                result.push(Piece { source: piece.source, offset: piece.offset, length: keep_len });
                proof {
                    assert(result@ + tail =~= before + (seq![piece_prefix(piece, rel_pos)] + tail));
                }
            } else {
                let skip_len = end - piece_start;
                let keep_offset = piece.offset + skip_len;
                let keep_len = piece.length - skip_len;
                result.push(Piece { source: piece.source, offset: keep_offset, length: keep_len });
                proof {
                    assert(result@ + tail =~= before + (seq![piece_suffix(piece, rel_end)] + tail));
                }
            }
            current = piece_end;
            i = i + 1;
        }
        proof {
            assert(ps.skip(n as int) =~= Seq::<Piece>::empty());
            assert(result@ =~= result@ + delete_pieces(ps.skip(n as int), pos - current, end - current));
        }
        proof {
            lemma_delete_pieces(ps, pos as int, end as int, o, a);
            lemma_ok_positive(result@, o, a);
        }
        self.set_pieces(result);
    }

    /// Insert raw text at position (for undo), reusing add_buffer.
    fn insert_raw(&mut self, pos: u64, text: &[u8])
        requires
            pieces_ok(old(self).pieces@, old(self).original@, old(self).add_buffer@),
            old(self).map_ok(),
            old(self).total_len + text@.len() <= u64::MAX,
            old(self).total_len == total_length(old(self).pieces@),
            old(self).add_buffer@.len() + text@.len() <= usize::MAX,
            pos <= old(self).total_len,
        ensures
            final(self).map_ok(),
            final(self).pieces@ == raw_insert(
                old(self).pieces@,
                pos as int,
                text@.len() as int,
                old(self).add_buffer@.len() as int,
            ),
            final(self).add_buffer@ == old(self).add_buffer@ + text@,
            final(self).original == old(self).original,
            final(self).total_len == old(self).total_len,
            final(self).undo_stack == old(self).undo_stack,
            final(self).redo_stack == old(self).redo_stack,
            pieces_ok(final(self).pieces@, final(self).original@, final(self).add_buffer@),
            total_length(final(self).pieces@) == old(self).total_len + text@.len(),
            pieces_text(final(self).pieces@, final(self).original@, final(self).add_buffer@)
                == pieces_text(old(self).pieces@, old(self).original@, old(self).add_buffer@).take(
                pos as int,
            ) + text@ + pieces_text(old(self).pieces@, old(self).original@, old(self).add_buffer@).skip(
                pos as int,
            ),
    {
        let ghost ps = self.pieces@;
        let ghost o = self.original@;
        let ghost a = self.add_buffer@;
        if text.len() == 0 {
            proof {
                lemma_text_len(ps, o, a);
                let t = pieces_text(ps, o, a);
                assert(t.take(pos as int) + text@ + t.skip(pos as int) =~= t);
            }
            return;
        }
        let add_offset = self.add_buffer.len() as u64;
        append_bytes(&mut self.add_buffer, text);
        let new_piece = Piece {
            source: PieceSource::AddBuffer,
            offset: add_offset,
            length: text.len() as u64,
        };
        proof {
            lemma_extend_added(ps, o, a, text@);
            assert(piece_bytes(new_piece, o, a + text@) =~= text@);
            lemma_insert_pieces(ps, pos as int, new_piece, o, a + text@);
        }
        proof {
            lemma_ok_positive(ps, o, a);
            lemma_keyed_dom(ps, 0);
        }
        if self.piece_map.len() == 0 {
            let single = vec![new_piece];
            proof {
                lemma_cons(new_piece, Seq::<Piece>::empty(), Seq::empty(), Seq::empty());
                assert(single@ =~= seq![new_piece] + Seq::<Piece>::empty());
                assert(total_length(Seq::<Piece>::empty()) == 0);
                assert(total_length(single@) == new_piece.length);
            }
            self.set_pieces(single);
            proof {
                assert(self.pieces@ =~= seq![new_piece]);
            }
        } else {
            self.insert_piece_at(pos, new_piece);
        }
    }

    /// Apply an edit's deletion to the pieces and the cached length.
    fn delete_and_shrink(&mut self, pos: u64, len: u64)
        requires
            pieces_ok(old(self).pieces@, old(self).original@, old(self).add_buffer@),
            old(self).map_ok(),
            old(self).total_len == total_length(old(self).pieces@),
            pos + len <= old(self).total_len,
        ensures
            final(self).pieces@ == raw_delete(old(self).pieces@, pos as int, len as int),
            final(self).map_ok(),
            final(self).original == old(self).original,
            final(self).add_buffer == old(self).add_buffer,
            final(self).total_len == old(self).total_len - len,
            final(self).undo_stack == old(self).undo_stack,
            final(self).redo_stack == old(self).redo_stack,
            pieces_ok(final(self).pieces@, final(self).original@, final(self).add_buffer@),
            total_length(final(self).pieces@) == final(self).total_len,
            pieces_text(final(self).pieces@, final(self).original@, final(self).add_buffer@)
                == pieces_text(old(self).pieces@, old(self).original@, old(self).add_buffer@).take(
                pos as int,
            ) + pieces_text(old(self).pieces@, old(self).original@, old(self).add_buffer@).skip(
                pos + len,
            ),
    {
        let ghost ps = self.pieces@;
        let ghost o = self.original@;
        let ghost a = self.add_buffer@;
        proof {
            lemma_text_len(ps, o, a);
            let t = pieces_text(ps, o, a);
            if len == 0 {
                assert(t.take(pos as int) + t.skip(pos as int) =~= t);
            } else {
                lemma_delete_pieces(ps, pos as int, pos + len, o, a);
            }
        }
        self.delete_range_internal(pos, len);
        self.total_len = self.total_len - len;
    }

    /// Read `len` bytes starting at logical position `pos`.
    pub fn read_range(&self, pos: u64, len: u64) -> (r: Vec<u8>)
        requires
            self.wf(),
        ensures
            r@ == read_spec(self.text(), pos as int, len as int),
    {
        proof {
            self.lemma_wf_text();
        }
        if len == 0 || pos >= self.total_len {
            return Vec::new();
        }
        let len = if len < self.total_len - pos {
            len
        } else {
            self.total_len - pos
        };
        let mut result: Vec<u8> = Vec::with_capacity(len as usize);
        let end = pos + len;
        let ghost ps = self.pieces@;
        let ghost o = self.original@;
        let ghost a = self.add_buffer@;
        let ghost t = self.text();
        proof {
            lemma_ok_positive(ps, o, a);
        }
        let pieces = self.ordered_pieces();
        let n = pieces.len();
        let mut current: u64 = 0;
        let mut i: usize = 0;
        proof {
            assert(ps.skip(0) =~= ps);
            assert(t.subrange(0, t.len() as int) =~= t);
            assert(result@ =~= t.subrange(pos as int, pos as int));
        }
        while i < n && current < end
            invariant
                ps == self.pieces@,
                pieces@ == ps,
                o == self.original@,
                a == self.add_buffer@,
                t == pieces_text(ps, o, a),
                n == ps.len(),
                i <= n,
                pieces_ok(ps, o, a),
                t.len() == total_length(ps),
                t.len() <= usize::MAX,
                o.len() <= usize::MAX,
                a.len() <= usize::MAX,
                pos < end <= t.len(),
                current + total_length(ps.skip(i as int)) == t.len(),
                pieces_text(ps.skip(i as int), o, a) == t.subrange(current as int, t.len() as int),
                result@ == t.subrange(
                    pos as int,
                    if pos < current { if current < end { current as int } else { end as int } } else { pos as int },
                ),
            decreases n - i,
        {
            let piece = pieces[i];
            let ghost rest = ps.skip(i + 1);
            proof {
                lemma_read_step(ps, i as int, current as int, o, a, t);
            }
            let piece_start = current;
            let piece_end = current + piece.length;
            if piece_end > pos {
                let read_start = (if pos > piece_start { pos } else { piece_start }) - piece_start;
                let read_end = (if end < piece_end { end } else { piece_end }) - piece_start;
                let source: &Vec<u8> = match piece.source {
                    PieceSource::Original => &self.original,
                    PieceSource::AddBuffer => &self.add_buffer,
                };
                let s = (piece.offset + read_start) as usize;
                let e = (piece.offset + read_end) as usize;
                let ghost before = result@;
                append_bytes(&mut result, &source.as_slice()[s..e]);
                proof {
                    let pb = piece_bytes(piece, o, a);
                    assert(source@ == piece_source(piece, o, a));
                    assert(source@.subrange(s as int, e as int) =~= pb.subrange(
                        read_start as int,
                        read_end as int,
                    ));
                    assert(source@.subrange(s as int, e as int) =~= t.subrange(
                        piece_start + read_start,
                        piece_start + read_end,
                    ));
                    assert(result@ =~= t.subrange(
                        pos as int,
                        if end < piece_end { end as int } else { piece_end as int },
                    ));
                }
            }
            current = piece_end;
            i = i + 1;
        }
        proof {
            if i == n {
                assert(ps.skip(n as int) =~= Seq::<Piece>::empty());
            }
        }
        result
    }
}

impl PieceTable {
    /// Create a new PieceTable with the given original content (UTF-8 bytes).
    pub fn new(original: Vec<u8>) -> (r: Self)
        ensures
            r.wf(),
            r.text() == original@,
            r.original_bytes() == original@,
            r.added() == Seq::<u8>::empty(),
            r.piece_seq() == (if original@.len() > 0 {
                seq![Piece { source: PieceSource::Original, offset: 0, length: original@.len() as u64 }]
            } else {
                Seq::<Piece>::empty()
            }),
            r.undo_actions() == Seq::<EditRecord>::empty(),
            r.redo_actions() == Seq::<EditRecord>::empty(),
    {
        let total_len = original.len() as u64;
        let mut pieces: Vec<Piece> = Vec::new();
        if total_len > 0 {
            pieces.push(Piece { source: PieceSource::Original, offset: 0, length: total_len });
        }
        let mut r = Self {
            original,
            add_buffer: Vec::new(),
            piece_map: BTreeMap::new(),
            pieces: Ghost(Seq::empty()),
            total_len,
            undo_stack: Vec::new(),
            redo_stack: Vec::new(),
        };
        proof {
            assert(total_length(Seq::<Piece>::empty()) == 0);
            if pieces@.len() > 0 {
                let p0 = pieces@[0];
                lemma_cons(p0, Seq::<Piece>::empty(), Seq::empty(), Seq::empty());
                assert(pieces@ =~= seq![p0] + Seq::<Piece>::empty());
            }
            assert(total_length(pieces@) == total_len);
        }
        r.set_pieces(pieces);
        proof {
            lemma_records_empty(r.undo_stack@);
            lemma_records_empty(r.redo_stack@);
            let o = r.original@;
            let a = r.add_buffer@;
            if total_len > 0 {
                let p = r.pieces@[0];
                lemma_cons(p, Seq::<Piece>::empty(), o, a);
                assert(r.pieces@ =~= seq![p] + Seq::<Piece>::empty());
                assert(piece_bytes(p, o, a) =~= o);
                assert(r.text() =~= o);
            } else {
                assert(r.text() =~= o);
            }
        }
        r
    }

    /// Total logical length in bytes.
    pub fn len(&self) -> (n: u64)
        requires
            self.wf(),
        ensures
            n == self.text().len(),
    {
        proof {
            self.lemma_wf_text();
        }
        self.total_len
    }

    /// Whether the document is empty.
    pub fn is_empty(&self) -> (b: bool)
        requires
            self.wf(),
        ensures
            b == (self.text().len() == 0),
    {
        proof {
            self.lemma_wf_text();
        }
        self.total_len == 0
    }

    /// Whether there are any edits to undo.
    pub fn is_dirty(&self) -> (b: bool)
        ensures
            b == (self.undo_actions().len() > 0),
    {
        self.undo_stack.len() > 0
    }

    /// Length of the add buffer.
    pub fn added_len(&self) -> (n: usize)
        ensures
            n == self.added().len(),
    {
        self.add_buffer.len()
    }

    /// Whether the document and the add buffer can both grow by `n` bytes within `usize`.
    pub fn has_room_for(&self, n: usize) -> (r: bool)
        requires
            self.wf(),
        ensures
            r == self.room_for(n as int),
    {
        proof {
            self.lemma_wf_text();
        }
        let t = self.total_len as usize;
        n <= usize::MAX - t && n <= usize::MAX - self.add_buffer.len()
    }

    /// Whether undoing the latest edit stays within the `usize` limits.
    pub fn undo_fits(&self) -> (r: bool)
        requires
            self.wf(),
        ensures
            r == self.undo_room(),
    {
        let n = self.undo_stack.len();
        if n == 0 {
            return true;
        }
        proof {
            assert(self.undo_actions()[n - 1] == self.undo_stack@[n - 1]@);
        }
        let growth = match &self.undo_stack[n - 1] {
            EditAction::Insert { .. } => 0,
            EditAction::Delete { text, .. } => text.len(),
            EditAction::Replace { old_text, .. } => old_text.len(),
        };
        self.has_room_for(growth)
    }

    /// Whether performing the latest undone edit again stays within the `usize` limits.
    pub fn redo_fits(&self) -> (r: bool)
        requires
            self.wf(),
        ensures
            r == self.redo_room(),
    {
        let n = self.redo_stack.len();
        if n == 0 {
            return true;
        }
        proof {
            assert(self.redo_actions()[n - 1] == self.redo_stack@[n - 1]@);
        }
        let growth = match &self.redo_stack[n - 1] {
            EditAction::Insert { text, .. } => text.len(),
            EditAction::Delete { .. } => 0,
            EditAction::Replace { new_text, .. } => new_text.len(),
        };
        self.has_room_for(growth)
    }

    /// Number of pieces (for diagnostics).
    pub fn piece_count(&self) -> (n: usize)
        requires
            self.wf(),
        ensures
            n == self.piece_seq().len(),
    {
        proof {
            lemma_ok_positive(self.pieces@, self.original@, self.add_buffer@);
            lemma_keyed_dom(self.pieces@, 0);
        }
        self.piece_map.len()
    }

    /// Read the entire logical content as bytes.
    pub fn to_bytes(&self) -> (r: Vec<u8>)
        requires
            self.wf(),
        ensures
            r@ == self.text(),
    {
        proof {
            self.lemma_wf_text();
            assert(self.text().subrange(0, self.text().len() as int) =~= self.text());
        }
        let r = self.read_range(0, self.total_len);
        proof {
            if self.total_len == 0 {
                assert(r@ =~= self.text());
            }
        }
        r
    }

    /// Read the entire logical content as a UTF-8 string (lossy).
    pub fn to_string_lossy(&self) -> (s: String)
        requires
            self.wf(),
        ensures
            s@ == crate::utf8::lossy_utf8(self.text()),
            vstd::utf8::valid_utf8(self.text()) ==> s@ == vstd::utf8::decode_utf8(self.text()),
    {
        let bytes = self.to_bytes();
        decode_lossy(bytes.as_slice())
    }

    // ─── Insert ───────────────────────────────────────────────

    /// Insert text at the given byte position (clipped to the end of the document).
    pub fn insert(&mut self, pos: u64, text: &[u8])
        requires
            old(self).wf(),
            old(self).room_for(text@.len() as int),
        ensures
            final(self).wf(),
            inserted(*old(self), *final(self), pos, text@),
    {
        if text.len() == 0 {
            return;
        }
        proof {
            self.lemma_wf_text();
        }
        let ghost t0 = self.text();
        let ghost us0 = self.undo_stack@;
        let pos = if pos < self.total_len {
            pos
        } else {
            self.total_len
        };
        let length = text.len() as u64;
        self.insert_raw(pos, text);
        self.total_len = self.total_len + length;
        let action = EditAction::Insert { pos, text: slice_to_vec(text) };
        self.undo_stack.push(action);
        self.redo_stack.clear();
        proof {
            lemma_records_push(us0, action);
            lemma_records_empty(self.redo_stack@);
            let a = action@;
            let t1 = self.text();
            assert(t1.subrange(pos as int, pos + length) =~= text@);
            assert(revert_edit(a, t1) =~= t0);
        }
    }

    // ─── Delete ───────────────────────────────────────────────

    /// Delete `len` bytes starting at byte position `pos` (clipped to the document).
    pub fn delete(&mut self, pos: u64, len: u64)
        requires
            old(self).wf(),
        ensures
            final(self).wf(),
            deleted(*old(self), *final(self), pos, len),
    {
        proof {
            self.lemma_wf_text();
        }
        if len == 0 || pos >= self.total_len {
            return;
        }
        let len = if len < self.total_len - pos {
            len
        } else {
            self.total_len - pos
        };
        let ghost t0 = self.text();
        let ghost us0 = self.undo_stack@;
        let deleted_text = self.read_range(pos, len);
        self.delete_and_shrink(pos, len);
        let action = EditAction::Delete { pos, length: len, text: deleted_text };
        self.undo_stack.push(action);
        self.redo_stack.clear();
        proof {
            lemma_records_push(us0, action);
            lemma_records_empty(self.redo_stack@);
            let a = action@;
            let t1 = self.text();
            assert(deleted_text@ =~= t0.subrange(pos as int, pos + len));
            assert(revert_edit(a, t1) =~= t0);
        }
    }

    // ─── Replace ──────────────────────────────────────────────

    /// Replace `len` bytes at `pos` with `text`; at or past the end, append `text`.
    pub fn replace(&mut self, pos: u64, len: u64, text: &[u8])
        requires
            old(self).wf(),
            old(self).room_for(text@.len() as int),
        ensures
            final(self).wf(),
            replaced(*old(self), *final(self), pos, len, text@),
    {
        proof {
            self.lemma_wf_text();
        }
        if pos >= self.total_len {
            // Append instead
            let end = self.total_len;
            proof {
                let t = self.text();
                assert(t.take(end as int) =~= t);
                assert(t.skip(end as int) =~= Seq::<u8>::empty());
                assert(t + text@ =~= t.take(end as int) + text@ + t.skip(end as int));
            }
            self.insert(end, text);
            return;
        }
        let len = if len < self.total_len - pos {
            len
        } else {
            self.total_len - pos
        };
        let ghost t0 = self.text();
        let ghost us0 = self.undo_stack@;
        let old_text = self.read_range(pos, len);
        proof {
            if len == 0 {
                assert(old_text@ =~= t0.subrange(pos as int, pos as int));
            }
        }
        self.delete_and_shrink(pos, len);
        let ghost t_mid = self.text();
        proof {
            assert(t_mid.len() == t0.len() - len);
        }
        self.insert_raw(pos, text);
        self.total_len = self.total_len + text.len() as u64;
        let action = EditAction::Replace { pos, old_text, new_text: slice_to_vec(text) };
        self.undo_stack.push(action);
        self.redo_stack.clear();
        proof {
            lemma_records_push(us0, action);
            lemma_records_empty(self.redo_stack@);
            let a = action@;
            let t1 = self.text();
            assert(t_mid.take(pos as int) =~= t0.take(pos as int));
            assert(t_mid.skip(pos as int) =~= t0.skip(pos + len));
            assert(t1 =~= t0.take(pos as int) + text@ + t0.skip(pos + len));
            assert(t1.subrange(pos as int, pos + text@.len()) =~= text@);
            assert(old_text@ =~= t0.subrange(pos as int, pos + len));
            assert(revert_edit(a, t1) =~= t0);
        }
    }
}

impl PieceTable {
    // ─── Undo / Redo ─────────────────────────────────────────

    /// Undo the last edit action. Returns true if something was undone.
    pub fn undo(&mut self) -> (r: bool)
        requires
            old(self).wf(),
            old(self).undo_room(),
        ensures
            final(self).wf(),
            r == (old(self).undo_actions().len() > 0),
            !r ==> *final(self) == *old(self),
            r ==> undone(*old(self), *final(self)),
    {
        proof {
            self.lemma_wf_text();
        }
        let ghost t0 = self.text();
        let ghost a0 = self.add_buffer@;
        let ghost rs0 = self.redo_stack@;
        let ghost us_all = self.undo_stack@;
        if self.undo_stack.len() == 0 {
            return false;
        }
        let action = match self.undo_stack.pop() {
            Some(a) => a,
            None => return false,
        };
        proof {
            assert(us_all =~= self.undo_stack@.push(action));
            lemma_records_push(self.undo_stack@, action);
        }
        match &action {
            EditAction::Insert { pos, text } => {
                let len = text.len() as u64;
                self.delete_and_shrink(*pos, len);
                proof {
                    assert(self.add_buffer@ =~= a0 + undo_added(action@));
                }
            },
            EditAction::Delete { pos, length: _, text } => {
                // Re-insert the deleted text
                self.insert_raw(*pos, text.as_slice());
                self.total_len = self.total_len + text.len() as u64;
            },
            EditAction::Replace { pos, old_text, new_text } => {
                let new_len = new_text.len() as u64;
                let ghost ps0 = self.pieces@;
                self.delete_and_shrink(*pos, new_len);
                let ghost t_mid = self.text();
                self.insert_raw(*pos, old_text.as_slice());
                self.total_len = self.total_len + old_text.len() as u64;
                proof {
                    assert(t_mid.take(*pos as int) =~= t0.take(*pos as int));
                    assert(t_mid.skip(*pos as int) =~= t0.skip(pos + new_len));
                }
            },
        }
        self.redo_stack.push(action);
        proof {
            lemma_records_push(rs0, action);
            let a = action@;
            assert(self.text() =~= revert_edit(a, t0));
            lemma_revert_then_apply(a, t0);
            assert(pieces_ok(self.pieces@, self.original@, self.add_buffer@));
            assert(self.total_len == total_length(self.pieces@));
            assert(self.total_len <= usize::MAX);
            assert(self.add_buffer@.len() <= usize::MAX);
            assert(undo_chain(self.undo_actions(), self.text()));
            assert(redo_chain(self.redo_actions(), self.text()));
        }
        true
    }

    /// Redo the last undone action. Returns true if something was redone.
    pub fn redo(&mut self) -> (r: bool)
        requires
            old(self).wf(),
            old(self).redo_room(),
        ensures
            final(self).wf(),
            r == (old(self).redo_actions().len() > 0),
            !r ==> *final(self) == *old(self),
            r ==> redone(*old(self), *final(self)),
    {
        proof {
            self.lemma_wf_text();
        }
        let ghost t0 = self.text();
        let ghost a0 = self.add_buffer@;
        let ghost us0 = self.undo_stack@;
        let ghost rs_all = self.redo_stack@;
        if self.redo_stack.len() == 0 {
            return false;
        }
        let action = match self.redo_stack.pop() {
            Some(a) => a,
            None => return false,
        };
        proof {
            assert(rs_all =~= self.redo_stack@.push(action));
            lemma_records_push(self.redo_stack@, action);
        }
        match &action {
            EditAction::Insert { pos, text } => {
                self.insert_raw(*pos, text.as_slice());
                self.total_len = self.total_len + text.len() as u64;
            },
            EditAction::Delete { pos, length, text: _ } => {
                self.delete_and_shrink(*pos, *length);
                proof {
                    assert(self.add_buffer@ =~= a0 + redo_added(action@));
                }
            },
            EditAction::Replace { pos, old_text, new_text } => {
                let old_len = old_text.len() as u64;
                self.delete_and_shrink(*pos, old_len);
                let ghost t_mid = self.text();
                self.insert_raw(*pos, new_text.as_slice());
                self.total_len = self.total_len + new_text.len() as u64;
                proof {
                    assert(t_mid.take(*pos as int) =~= t0.take(*pos as int));
                    assert(t_mid.skip(*pos as int) =~= t0.skip(pos + old_len));
                }
            },
        }
        self.undo_stack.push(action);
        proof {
            lemma_records_push(us0, action);
            let a = action@;
            assert(self.text() =~= apply_edit(a, t0));
            lemma_apply_then_revert(a, t0);
            assert(pieces_ok(self.pieces@, self.original@, self.add_buffer@));
            assert(self.total_len == total_length(self.pieces@));
            assert(self.total_len <= usize::MAX);
            assert(self.add_buffer@.len() <= usize::MAX);
            assert(undo_chain(self.undo_actions(), self.text()));
            assert(redo_chain(self.redo_actions(), self.text()));
        }
        true
    }
}

/// `new` is `old` after `insert(pos, text)`: with no text nothing changes; otherwise the
/// text goes in at `pos` clipped to the end, by a new add-buffer piece, and the insertion
/// is recorded for undo while the redo stack is cleared.
pub open spec fn inserted(old: PieceTable, new: PieceTable, pos: u64, text: Seq<u8>) -> bool {
    &&& text.len() == 0 ==> new == old
    &&& text.len() > 0 ==> {
        let p = clamp_pos(pos, old.text());
        &&& new.text() == old.text().take(p as int) + text + old.text().skip(p as int)
        &&& new.piece_seq() == raw_insert(old.piece_seq(), p as int, text.len() as int, old.added().len() as int)
        &&& new.added() == old.added() + text
        &&& new.original_bytes() == old.original_bytes()
        &&& new.undo_actions() == old.undo_actions().push(EditRecord::Insert { pos: p, text: text })
        &&& new.redo_actions() == Seq::<EditRecord>::empty()
    }
}

/// `new` is `old` after `delete(pos, len)`: for an empty range or a position at or past the
/// end nothing changes; otherwise the bytes `[pos, pos + len)`, clipped to the end, go,
/// and the deletion (with the bytes removed) is recorded for undo while the redo stack
/// is cleared.
pub open spec fn deleted(old: PieceTable, new: PieceTable, pos: u64, len: u64) -> bool {
    let t = old.text();
    &&& (len == 0 || pos >= t.len()) ==> new == old
    &&& !(len == 0 || pos >= t.len()) ==> {
        let l = if len < t.len() - pos { len as int } else { t.len() - pos };
        &&& new.text() == t.take(pos as int) + t.skip(pos + l)
        &&& new.piece_seq() == raw_delete(old.piece_seq(), pos as int, l)
        &&& new.added() == old.added()
        &&& new.original_bytes() == old.original_bytes()
        &&& new.undo_actions() == old.undo_actions().push(
            EditRecord::Delete { pos, length: l as u64, text: t.subrange(pos as int, pos + l) },
        )
        &&& new.redo_actions() == Seq::<EditRecord>::empty()
    }
}

/// `new` is `old` after `replace(pos, len, text)`: at or past the end, `text` is appended
/// as `insert` would; otherwise the bytes `[pos, pos + len)`, clipped to the end, give way to
/// `text`, and the replacement (with the bytes removed) is recorded for undo while the redo
/// stack is cleared.
pub open spec fn replaced(old: PieceTable, new: PieceTable, pos: u64, len: u64, text: Seq<u8>) -> bool {
    let t = old.text();
    &&& pos >= t.len() ==> inserted(old, new, t.len() as u64, text)
    &&& pos < t.len() ==> {
        let l = if len < t.len() - pos { len as int } else { t.len() - pos };
        &&& new.text() == t.take(pos as int) + text + t.skip(pos + l)
        &&& new.piece_seq() == raw_insert(
            raw_delete(old.piece_seq(), pos as int, l),
            pos as int,
            text.len() as int,
            old.added().len() as int,
        )
        &&& new.added() == old.added() + text
        &&& new.original_bytes() == old.original_bytes()
        &&& new.undo_actions() == old.undo_actions().push(
            EditRecord::Replace { pos, old_text: t.subrange(pos as int, pos + l), new_text: text },
        )
        &&& new.redo_actions() == Seq::<EditRecord>::empty()
    }
}

/// `new` is `old` with its latest edit reverted: the text, pieces and add buffer as reverting
/// it makes them, the edit moved from the undo stack to the redo stack.
pub open spec fn undone(old: PieceTable, new: PieceTable) -> bool {
    let a = old.undo_actions().last();
    &&& new.text() == revert_edit(a, old.text())
    &&& new.piece_seq() == undo_pieces(a, old.piece_seq(), old.added().len() as int)
    &&& new.added() == old.added() + undo_added(a)
    &&& new.original_bytes() == old.original_bytes()
    &&& new.undo_actions() == old.undo_actions().drop_last()
    &&& new.redo_actions() == old.redo_actions().push(a)
}

/// `new` is `old` with its latest undone edit performed again: the text, pieces and add
/// buffer as performing it makes them, the edit moved from the redo stack to the undo stack.
pub open spec fn redone(old: PieceTable, new: PieceTable) -> bool {
    let a = old.redo_actions().last();
    &&& new.text() == apply_edit(a, old.text())
    &&& new.piece_seq() == redo_pieces(a, old.piece_seq(), old.added().len() as int)
    &&& new.added() == old.added() + redo_added(a)
    &&& new.original_bytes() == old.original_bytes()
    &&& new.undo_actions() == old.undo_actions().push(a)
    &&& new.redo_actions() == old.redo_actions().drop_last()
}

/// The undo record of an edit, reverted on the text the edit made, gives back the text
/// from before the edit.
proof fn lemma_undo_last(old: PieceTable, mid: PieceTable, fin: PieceTable, a: EditRecord)
    requires
        mid.undo_actions() == old.undo_actions().push(a),
        can_apply(a, old.text()),
        mid.text() == apply_edit(a, old.text()),
        undone(mid, fin),
    ensures
        fin.text() == old.text(),
        fin.undo_actions() == old.undo_actions(),
        fin.redo_actions() == mid.redo_actions().push(a),
{
    lemma_apply_then_revert(a, old.text());
    assert(mid.undo_actions().last() == a);
    assert(mid.undo_actions().drop_last() =~= old.undo_actions());
}

/// Undo after an insert that added text gives back the text and the undo stack from
/// before the insert.
pub proof fn lemma_undo_after_insert(
    old: PieceTable,
    mid: PieceTable,
    fin: PieceTable,
    pos: u64,
    text: Seq<u8>,
)
    requires
        old.wf(),
        inserted(old, mid, pos, text),
        text.len() > 0,
        undone(mid, fin),
    ensures
        fin.text() == old.text(),
        fin.undo_actions() == old.undo_actions(),
{
    let t = old.text();
    let p = clamp_pos(pos, t);
    let a = EditRecord::Insert { pos: p, text: text };
    lemma_undo_last(old, mid, fin, a);
}

/// Undo after a delete that removed bytes gives back the text and the undo stack from
/// before the delete.
pub proof fn lemma_undo_after_delete(
    old: PieceTable,
    mid: PieceTable,
    fin: PieceTable,
    pos: u64,
    len: u64,
)
    requires
        old.wf(),
        deleted(old, mid, pos, len),
        len > 0,
        pos < old.text().len(),
        undone(mid, fin),
    ensures
        fin.text() == old.text(),
        fin.undo_actions() == old.undo_actions(),
{
    let t = old.text();
    let l = if len < t.len() - pos { len as int } else { t.len() - pos };
    let a = EditRecord::Delete { pos, length: l as u64, text: t.subrange(pos as int, pos + l) };
    lemma_undo_last(old, mid, fin, a);
}

/// Undo after a replace inside the text gives back the text and the undo stack from
/// before the replace.
pub proof fn lemma_undo_after_replace(
    old: PieceTable,
    mid: PieceTable,
    fin: PieceTable,
    pos: u64,
    len: u64,
    text: Seq<u8>,
)
    requires
        old.wf(),
        replaced(old, mid, pos, len, text),
        pos < old.text().len(),
        undone(mid, fin),
    ensures
        fin.text() == old.text(),
        fin.undo_actions() == old.undo_actions(),
{
    let t = old.text();
    let l = if len < t.len() - pos { len as int } else { t.len() - pos };
    let a = EditRecord::Replace { pos, old_text: t.subrange(pos as int, pos + l), new_text: text };
    lemma_undo_last(old, mid, fin, a);
}

/// Redo right after undo gives back the text and both stacks from before the undo.
pub proof fn lemma_redo_after_undo(a: PieceTable, b: PieceTable, c: PieceTable)
    requires
        a.wf(),
        a.undo_actions().len() > 0,
        undone(a, b),
        redone(b, c),
    ensures
        c.text() == a.text(),
        c.undo_actions() == a.undo_actions(),
        c.redo_actions() == a.redo_actions(),
{
    let e = a.undo_actions().last();
    assert(can_revert(e, a.text()));
    lemma_revert_then_apply(e, a.text());
    assert(b.redo_actions().last() == e);
    assert(b.undo_actions().push(e) =~= a.undo_actions());
    assert(b.redo_actions().drop_last() =~= a.redo_actions());
}


/// Undo right after redo gives back the text and both stacks from before the redo.
pub proof fn lemma_undo_after_redo(a: PieceTable, b: PieceTable, c: PieceTable)
    requires
        a.wf(),
        a.redo_actions().len() > 0,
        redone(a, b),
        undone(b, c),
    ensures
        c.text() == a.text(),
        c.undo_actions() == a.undo_actions(),
        c.redo_actions() == a.redo_actions(),
{
    let e = a.redo_actions().last();
    assert(can_apply(e, a.text()));
    lemma_apply_then_revert(e, a.text());
    assert(b.undo_actions().last() == e);
    assert(b.undo_actions().drop_last() =~= a.undo_actions());
    assert(b.redo_actions().push(e) =~= a.redo_actions());
}

} // verus!

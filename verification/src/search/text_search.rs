//! Plain-text search, line by line, with optional ASCII case folding and whole-word
//! matching.

use vstd::prelude::*;
use vstd::slice::slice_to_vec;
use crate::scan::next_newline_exec;
use crate::search::types::{SearchMatch, SearchOptions};
use crate::utf8::decode_lossy;

verus! {

/// `b` is an ASCII letter, digit or underscore.
pub open spec fn is_word_byte(b: u8) -> bool {
    (48 <= b <= 57) || (65 <= b <= 90) || (97 <= b <= 122) || b == 95
}

/// `b` with ASCII upper case turned to lower case.
pub open spec fn ascii_lower(b: u8) -> u8 {
    if 65 <= b <= 90 {
        (b + 32) as u8
    } else {
        b
    }
}

/// `s` with ASCII upper case turned to lower case.
pub open spec fn lower_bytes(s: Seq<u8>) -> Seq<u8> {
    Seq::new(s.len(), |i: int| ascii_lower(s[i]))
}

/// The Unicode lower case of `s`, as `str::to_lowercase` makes it.
pub uninterp spec fn unicode_lowercase(s: Seq<char>) -> Seq<char>;

/// The bytes searched for: the query's UTF-8 bytes, lower-cased (Unicode) unless the
/// search is case-sensitive.
pub open spec fn searched_query(query: Seq<char>, case_sensitive: bool) -> Seq<u8> {
    if case_sensitive {
        vstd::utf8::encode_utf8(query)
    } else {
        vstd::utf8::encode_utf8(unicode_lowercase(query))
    }
}

/// `q` occurs in `sb` at `col`, and, when `whole` holds, is not touched by a word byte on
/// either side.
pub open spec fn hit_at(sb: Seq<u8>, q: Seq<u8>, whole: bool, col: int) -> bool {
    &&& 0 <= col
    &&& col + q.len() <= sb.len()
    &&& sb.subrange(col, col + q.len()) == q
    &&& whole ==> {
        &&& (col == 0 || !is_word_byte(sb[col - 1]))
        &&& (col + q.len() >= sb.len() || !is_word_byte(sb[col + q.len()]))
    }
}

/// The hits in the line bytes `sb` at columns `col` and after, in order, each as
/// (line number, column, offset of the line start + column).
pub open spec fn line_hits(sb: Seq<u8>, q: Seq<u8>, whole: bool, col: int, line: int, base: int) -> Seq<
    (int, int, int),
>
    decreases sb.len() + 1 - col,
{
    if col < 0 || col + q.len() > sb.len() {
        Seq::empty()
    } else {
        (if hit_at(sb, q, whole, col) {
            seq![(line, col, base + col)]
        } else {
            Seq::empty()
        }) + line_hits(sb, q, whole, col + 1, line, base)
    }
}

/// End of the line that starts at `pos`: the next newline, or the end of `d`.
pub open spec fn line_end(d: Seq<u8>, pos: int) -> int {
    match crate::scan::next_newline(d, pos) {
        Some(j) => j,
        None => d.len() as int,
    }
}

/// The bytes of a line as searched: as they are, or ASCII lower-cased.
pub open spec fn searched_bytes(lb: Seq<u8>, case_sensitive: bool) -> Seq<u8> {
    if case_sensitive {
        lb
    } else {
        lower_bytes(lb)
    }
}

/// All hits of `q` in the lines of `d` from the line that starts at `pos`, numbered
/// from `line` on.
pub open spec fn text_hits(d: Seq<u8>, q: Seq<u8>, cs: bool, whole: bool, pos: int, line: int) -> Seq<
    (int, int, int),
>
    decreases d.len() - pos,
{
    if pos < 0 || pos >= d.len() {
        Seq::empty()
    } else {
        let e = line_end(d, pos);
        proof {
            crate::scan::lemma_next_newline_bounds(d, pos);
            assert(e >= pos);
        }
        line_hits(searched_bytes(d.subrange(pos, e), cs), q, whole, 0, line, pos) + if e < d.len() {
            text_hits(d, q, cs, whole, e + 1, line + 1)
        } else {
            Seq::empty()
        }
    }
}

/// `m` reports the hit `h` of a query of `qlen` bytes in `d`.
pub open spec fn reports(m: SearchMatch, h: (int, int, int), d: Seq<u8>, qlen: nat) -> bool {
    &&& m.line == h.0
    &&& m.col == h.1 as u32
    &&& m.length == qlen as u32
    &&& m.text@ == crate::utf8::lossy_utf8(d.subrange(h.2, h.2 + qlen))
}

/// `r` is what a plain search for `query` in `content` finds: nothing for an empty query
/// or an empty content, else one match reporting each hit, in order.
pub open spec fn text_results(content: Seq<u8>, query: Seq<char>, options: SearchOptions, r: Seq<
    SearchMatch,
>) -> bool {
    if query.len() == 0 || content.len() == 0 {
        r.len() == 0
    } else {
        let q = searched_query(query, options.case_sensitive);
        let hits = text_hits(content, q, options.case_sensitive, options.whole_word, 0, 0);
        &&& r.len() == hits.len()
        &&& forall|i: int| 0 <= i < hits.len() ==> reports(#[trigger] r[i], hits[i], content, q.len())
    }
}

/// A non-empty string has a non-empty UTF-8 encoding.
pub proof fn lemma_encode_nonempty(s: Seq<char>)
    requires
        s.len() > 0,
    ensures
        vstd::utf8::encode_utf8(s).len() > 0,
{
}

/// `str::to_lowercase`: the Unicode lower case of `s`; each character maps to one or more
/// characters, so the result is no shorter than `s`.
#[verifier::external_body]
fn to_lowercase(s: &str) -> (r: String)
    ensures
        r@ == unicode_lowercase(s@),
        r@.len() >= s@.len(),
{
    s.to_lowercase()
}

/// Whether `b` is an ASCII letter, digit or underscore.
pub fn is_word_char(b: u8) -> (r: bool)
    ensures
        r == is_word_byte(b),
{
    (48u8 <= b && b <= 57u8) || (65u8 <= b && b <= 90u8) || (97u8 <= b && b <= 122u8) || b == 95u8
}

/// `bytes` with ASCII upper case turned to lower case.
pub fn ascii_lowercase(bytes: &[u8]) -> (r: Vec<u8>)
    ensures
        r@ == lower_bytes(bytes@),
{
    let mut out: Vec<u8> = Vec::new();
    let mut i: usize = 0;
    while i < bytes.len()
        invariant
            i <= bytes@.len(),
            out@ == lower_bytes(bytes@.take(i as int)),
        decreases bytes@.len() - i,
    {
        let b = bytes[i];
        let l = if 65u8 <= b && b <= 90u8 {
            b + 32
        } else {
            b
        };
        out.push(l);
        proof {
            assert(lower_bytes(bytes@.take(i + 1)) =~= lower_bytes(bytes@.take(i as int)).push(l));
        }
        i = i + 1;
    }
    proof {
        assert(bytes@.take(i as int) =~= bytes@);
    }
    out
}

/// Whether `needle` occurs in `hay` at `at`.
fn occurs_at(hay: &[u8], at: usize, needle: &[u8]) -> (r: bool)
    requires
        at + needle@.len() <= hay@.len(),
    ensures
        r == (hay@.subrange(at as int, at + needle@.len()) == needle@),
{
    let mut i: usize = 0;
    let hl = hay.len();
    while i < needle.len()
        invariant
            hl == hay@.len(),
            at + needle@.len() <= hay@.len(),
            i <= needle@.len(),
            forall|j: int| 0 <= j < i ==> hay@[at + j] == needle@[j],
        decreases needle@.len() - i,
    {
        if hay[at + i] != needle[i] {
            proof {
                assert(hay@.subrange(at as int, at + needle@.len())[i as int] != needle@[i as int]);
            }
            return false;
        }
        i = i + 1;
    }
    proof {
        assert(hay@.subrange(at as int, at + needle@.len()) =~= needle@);
    }
    true
}

/// Search for `query` in `content` using simple byte scanning.
/// Returns all matches with line/column information.
pub fn search(content: &[u8], query: &str, options: &SearchOptions) -> (r: Vec<SearchMatch>)
    ensures
        text_results(content@, query@, *options, r@),
{
    if query.is_empty() || content.len() == 0 {
        return Vec::new();
    }
    let cs = options.case_sensitive;
    let whole = options.whole_word;
    let query_bytes: Vec<u8> = if cs {
        slice_to_vec(query.as_bytes())
    } else {
        let lower = to_lowercase(query);
        slice_to_vec(lower.as_str().as_bytes())
    };
    let n = content.len();
    let qn = query_bytes.len();
    proof {
        if cs {
            lemma_encode_nonempty(query@);
        } else {
            lemma_encode_nonempty(unicode_lowercase(query@));
        }
    }
    let ghost q = query_bytes@;
    let ghost d = content@;
    let ghost total = text_hits(d, q, cs, whole, 0, 0);
    let ghost mut acc: Seq<(int, int, int)> = Seq::empty();
    let mut matches: Vec<SearchMatch> = Vec::new();
    let mut line: u64 = 0;
    let mut line_start: usize = 0;
    let mut pos: usize = 0;
    proof {
        assert(acc + total =~= total);
    }
    while pos < n
        invariant
            d == content@,
            n == d.len(),
            q == query_bytes@,
            qn == q.len(),
            q == searched_query(query@, cs),
            qn > 0,
            total == text_hits(d, q, cs, whole, 0, 0),
            line_start == pos,
            pos <= n,
            line <= pos,
            acc + text_hits(d, q, cs, whole, pos as int, line as int) == total,
            matches@.len() == acc.len(),
            forall|i: int| 0 <= i < acc.len() ==> reports(#[trigger] matches@[i], acc[i], d, qn as nat),
        decreases n - pos,
    {
        // Find the end of the current line
        let line_end = match next_newline_exec(content, pos) {
            Some(nl) => nl,
            None => n,
        };
        proof {
            crate::scan::lemma_next_newline_bounds(d, pos as int);
        }
        let line_bytes = &content[line_start..line_end];
        // Search within this line
        let search_bytes: Vec<u8> = if cs {
            slice_to_vec(line_bytes)
        } else {
            ascii_lowercase(line_bytes)
        };
        let ghost sb = search_bytes@;
        let ghost rest = if line_end < n {
            text_hits(d, q, cs, whole, line_end + 1, line + 1)
        } else {
            Seq::empty()
        };
        proof {
            assert(line_bytes@ =~= d.subrange(pos as int, line_end as int));
            assert(sb == searched_bytes(d.subrange(pos as int, line_end as int), cs));
            assert(text_hits(d, q, cs, whole, pos as int, line as int) == line_hits(
                sb,
                q,
                whole,
                0,
                line as int,
                pos as int,
            ) + rest);
            assert(acc + line_hits(sb, q, whole, 0, line as int, pos as int) + rest =~= total);
        }
        let sl = search_bytes.len();
        let mut col: usize = 0;
        while col <= sl && qn <= sl - col
            invariant
                d == content@,
                n == d.len(),
                q == query_bytes@,
                qn == q.len(),
                qn > 0,
                sb == search_bytes@,
                sl == sb.len(),
                line_bytes@ == d.subrange(pos as int, line_end as int),
                sb.len() == line_bytes@.len(),
                pos <= line_end <= n,
                line_start == pos,
                acc + line_hits(sb, q, whole, col as int, line as int, pos as int) + rest == total,
                matches@.len() == acc.len(),
                forall|i: int| 0 <= i < acc.len() ==> reports(#[trigger] matches@[i], acc[i], d, qn as nat),
            decreases sl + 1 - col,
        {
            let ghost before = acc;
            let ghost tail = line_hits(sb, q, whole, col + 1, line as int, pos as int);
            if occurs_at(search_bytes.as_slice(), col, query_bytes.as_slice()) {
                // Check whole word boundary if needed
                let before_ok = col == 0 || !is_word_char(search_bytes[col - 1]);
                let after_ok = col + qn >= sl || !is_word_char(search_bytes[col + qn]);
                if !whole || (before_ok && after_ok) {
                    let matched_text = decode_lossy(&line_bytes[col..col + qn]);
                    matches.push(
                        SearchMatch {
                            line,
                            col: #[verifier::truncate] (col as u32),
                            length: #[verifier::truncate] (qn as u32),
                            text: matched_text,
                        },
                    );
                    proof {
                        let h = (line as int, col as int, pos + col);
                        assert(hit_at(sb, q, whole, col as int));
                        assert(line_bytes@.subrange(col as int, col + qn) =~= d.subrange(
                            pos + col,
                            pos + col + qn,
                        ));
                        acc = acc.push(h);
                        assert(acc + tail + rest =~= before + line_hits(
                            sb,
                            q,
                            whole,
                            col as int,
                            line as int,
                            pos as int,
                        ) + rest);
                    }
                } else {
                    proof {
                        assert(!hit_at(sb, q, whole, col as int));
                        assert(line_hits(sb, q, whole, col as int, line as int, pos as int) =~= tail);
                    }
                }
            } else {
                proof {
                    assert(!hit_at(sb, q, whole, col as int));
                    assert(line_hits(sb, q, whole, col as int, line as int, pos as int) =~= tail);
                }
            }
            col = col + 1;
        }
        proof {
            assert(line_hits(sb, q, whole, col as int, line as int, pos as int) =~= Seq::<
                (int, int, int),
            >::empty());
            assert(acc + rest =~= total);
        }
        // Move to next line
        pos = if line_end < n {
            line_end + 1
        } else {
            n
        };
        line_start = pos;
        line = line + 1;
        proof {
            if line_end >= n {
                assert(acc + text_hits(d, q, cs, whole, pos as int, line as int) =~= total);
            }
        }
    }
    proof {
        assert(acc + text_hits(d, q, cs, whole, pos as int, line as int) =~= acc);
    }
    matches
}

/// The hits of `line_hits` from column `col` on: each on line `line`, at offset `base`
/// plus its column, at or after `col`, and a hit of `q` in `sb`.
proof fn lemma_line_hits(sb: Seq<u8>, q: Seq<u8>, whole: bool, col: int, line: int, base: int)
    requires
        0 <= col,
    ensures
        forall|k: int|
            0 <= k < line_hits(sb, q, whole, col, line, base).len() ==> {
                let h = #[trigger] line_hits(sb, q, whole, col, line, base)[k];
                &&& h.0 == line
                &&& h.2 == base + h.1
                &&& col <= h.1
                &&& hit_at(sb, q, whole, h.1)
            },
    decreases sb.len() + 1 - col,
{
    if !(col < 0 || col + q.len() > sb.len()) {
        lemma_line_hits(sb, q, whole, col + 1, line, base);
        let first: Seq<(int, int, int)> = if hit_at(sb, q, whole, col) {
            seq![(line, col, base + col)]
        } else {
            Seq::empty()
        };
        let rest = line_hits(sb, q, whole, col + 1, line, base);
        let all = line_hits(sb, q, whole, col, line, base);
        assert(all == first + rest);
        assert forall|k: int| 0 <= k < all.len() implies {
            let h = #[trigger] all[k];
            &&& h.0 == line
            &&& h.2 == base + h.1
            &&& col <= h.1
            &&& hit_at(sb, q, whole, h.1)
        } by {
            if k >= first.len() {
                assert(all[k] == rest[k - first.len()]);
            }
        }
    }
}

/// The hits of `text_hits` from the start `pos` of line `line` on: each lies on a line of
/// `d` that starts where its offset minus its column is, and is a hit in that line.
proof fn lemma_text_hits(d: Seq<u8>, q: Seq<u8>, cs: bool, whole: bool, pos: int, line: int)
    requires
        0 <= line,
        crate::scan::line_start(d, line as nat) == Some(pos),
    ensures
        forall|k: int|
            0 <= k < text_hits(d, q, cs, whole, pos, line).len() ==> {
                let h = #[trigger] text_hits(d, q, cs, whole, pos, line)[k];
                &&& 0 <= h.1
                &&& 0 <= h.0
                &&& crate::scan::line_start(d, h.0 as nat) == Some(h.2 - h.1)
                &&& h.2 - h.1 <= d.len()
                &&& hit_at(
                    searched_bytes(d.subrange(h.2 - h.1, line_end(d, h.2 - h.1)), cs),
                    q,
                    whole,
                    h.1,
                )
            },
    decreases d.len() - pos,
{
    if 0 <= pos < d.len() {
        crate::scan::lemma_next_newline_bounds(d, pos);
        let e = line_end(d, pos);
        let sb = searched_bytes(d.subrange(pos, e), cs);
        lemma_line_hits(sb, q, whole, 0, line, pos);
        let first = line_hits(sb, q, whole, 0, line, pos);
        let rest: Seq<(int, int, int)> = if e < d.len() {
            text_hits(d, q, cs, whole, e + 1, line + 1)
        } else {
            Seq::empty()
        };
        if e < d.len() {
            crate::scan::lemma_line_start_compose(d, 0, line as nat, 1);
            assert(crate::scan::line_start_from(d, e + 1, 0) == Some(e + 1));
            assert(crate::scan::line_start(d, (line + 1) as nat) == Some(e + 1));
            lemma_text_hits(d, q, cs, whole, e + 1, line + 1);
        }
        let all = text_hits(d, q, cs, whole, pos, line);
        assert(all == first + rest);
        assert forall|k: int| 0 <= k < all.len() implies {
            let h = #[trigger] all[k];
            &&& 0 <= h.1
            &&& 0 <= h.0
            &&& crate::scan::line_start(d, h.0 as nat) == Some(h.2 - h.1)
            &&& h.2 - h.1 <= d.len()
            &&& hit_at(
                searched_bytes(d.subrange(h.2 - h.1, line_end(d, h.2 - h.1)), cs),
                q,
                whole,
                h.1,
            )
        } by {
            if k >= first.len() {
                assert(all[k] == rest[k - first.len()]);
            } else {
                assert(all[k] == first[k]);
            }
        }
    }
}

/// Each plain-search match lies in the content where its line starts plus its column, for
/// its length: a case-sensitive match is exactly the query's bytes there, and a whole-word
/// match has no ASCII letter, digit or `_` just before it or just after it.
pub proof fn lemma_hits_are_occurrences(
    content: Seq<u8>,
    query: Seq<char>,
    options: SearchOptions,
    r: Seq<SearchMatch>,
)
    requires
        text_results(content, query, options, r),
        content.len() <= u32::MAX,
    ensures
        forall|i: int|
            0 <= i < r.len() ==> (crate::scan::line_start(content, (#[trigger] r[i]).line as nat) matches Some(
                ls,
            ) && {
                let p = ls + r[i].col;
                let e = p + r[i].length;
                &&& 0 <= p <= e <= content.len()
                &&& options.case_sensitive ==> content.subrange(p, e) == vstd::utf8::encode_utf8(query)
                &&& !options.case_sensitive ==> e - p == vstd::utf8::encode_utf8(
                    unicode_lowercase(query),
                ).len() && forall|j: int|
                    0 <= j < e - p ==> (if 65 <= #[trigger] content[p + j] <= 90 {
                        content[p + j] + 32
                    } else {
                        content[p + j] as int
                    }) == vstd::utf8::encode_utf8(unicode_lowercase(query))[j]
                &&& options.whole_word ==> p == 0 || !(48 <= content[p - 1] <= 57 || 65 <= content[p
                    - 1] <= 90 || 97 <= content[p - 1] <= 122 || content[p - 1] == 95)
                &&& options.whole_word ==> e == content.len() || !(48 <= content[e] <= 57 || 65
                    <= content[e] <= 90 || 97 <= content[e] <= 122 || content[e] == 95)
            }),
{
    if !(query.len() == 0 || content.len() == 0) {
        let d = content;
        let cs = options.case_sensitive;
        let whole = options.whole_word;
        let q = searched_query(query, cs);
        let hits = text_hits(d, q, cs, whole, 0, 0);
        assert(crate::scan::line_start(d, 0) == Some(0int));
        lemma_text_hits(d, q, cs, whole, 0, 0);
        assert forall|i: int| 0 <= i < r.len() implies (crate::scan::line_start(
            content,
            (#[trigger] r[i]).line as nat,
        ) matches Some(ls) && {
            let p = ls + r[i].col;
            let e = p + r[i].length;
            &&& 0 <= p <= e <= content.len()
            &&& options.case_sensitive ==> content.subrange(p, e) == vstd::utf8::encode_utf8(query)
            &&& !options.case_sensitive ==> e - p == vstd::utf8::encode_utf8(
                unicode_lowercase(query),
            ).len() && forall|j: int|
                0 <= j < e - p ==> (if 65 <= #[trigger] content[p + j] <= 90 {
                    content[p + j] + 32
                } else {
                    content[p + j] as int
                }) == vstd::utf8::encode_utf8(unicode_lowercase(query))[j]
            &&& options.whole_word ==> p == 0 || !(48 <= content[p - 1] <= 57 || 65 <= content[p
                - 1] <= 90 || 97 <= content[p - 1] <= 122 || content[p - 1] == 95)
            &&& options.whole_word ==> e == content.len() || !(48 <= content[e] <= 57 || 65
                <= content[e] <= 90 || 97 <= content[e] <= 122 || content[e] == 95)
        }) by {
            let h = hits[i];
            assert(reports(r[i], h, d, q.len()));
            let ls = h.2 - h.1;
            let col = h.1;
            crate::scan::lemma_line_start_bounds(d, 0, h.0 as nat);
            crate::scan::lemma_next_newline_bounds(d, ls);
            let le = line_end(d, ls);
            let lb = d.subrange(ls, le);
            let sb = searched_bytes(lb, cs);
            assert(sb.len() == lb.len());
            assert(col + q.len() <= sb.len());
            assert(r[i].col == col);
            assert(r[i].length == q.len());
            let p = ls + col;
            let e = p + q.len();
            if cs {
                assert(content.subrange(p, e) =~= sb.subrange(col, col + q.len()));
            } else {
                assert forall|j: int| 0 <= j < e - p implies (if 65 <= #[trigger] content[p + j]
                    <= 90 {
                    content[p + j] + 32
                } else {
                    content[p + j] as int
                }) == q[j] by {
                    assert(sb.subrange(col, col + q.len())[j] == q[j]);
                    assert(sb[col + j] == ascii_lower(lb[col + j]));
                    assert(lb[col + j] == content[p + j]);
                }
            }
            if whole {
                if col > 0 {
                    assert(d[p - 1] == lb[col - 1]);
                    assert(is_word_byte(sb[col - 1]) == is_word_byte(lb[col - 1]));
                } else if p > 0 {
                    assert(h.0 > 0);
                    assert(d[p - 1] == 10u8);
                }
                if col + q.len() < sb.len() {
                    assert(d[e] == lb[col + q.len()]);
                    assert(is_word_byte(sb[col + q.len()]) == is_word_byte(lb[col + q.len()]));
                } else if e < d.len() {
                    assert(e == le);
                    assert(d[e] == 10u8);
                }
            }
        }
    }
}

/// Every hit at column `c` at or after `col` appears in `line_hits` from `col`.
proof fn lemma_line_hits_complete(sb: Seq<u8>, q: Seq<u8>, whole: bool, col: int, line: int, base: int, c: int)
    requires
        0 <= col <= c,
        hit_at(sb, q, whole, c),
    ensures
        line_hits(sb, q, whole, col, line, base).contains((line, c, base + c)),
    decreases c - col,
{
    let first: Seq<(int, int, int)> = if hit_at(sb, q, whole, col) {
        seq![(line, col, base + col)]
    } else {
        Seq::empty()
    };
    let rest = line_hits(sb, q, whole, col + 1, line, base);
    let all = line_hits(sb, q, whole, col, line, base);
    assert(all == first + rest);
    if col == c {
        assert(all[0] == (line, c, base + c));
    } else {
        lemma_line_hits_complete(sb, q, whole, col + 1, line, base, c);
        let k = choose|k: int| 0 <= k < rest.len() && rest[k] == (line, c, base + c);
        assert(all[first.len() + k] == (line, c, base + c));
    }
}

/// Every hit in line `k` (at or after line `line`, which starts at `pos`) appears in
/// `text_hits` from `pos`.
proof fn lemma_text_hits_complete(
    d: Seq<u8>,
    q: Seq<u8>,
    cs: bool,
    whole: bool,
    pos: int,
    line: int,
    k: int,
    ls: int,
    c: int,
)
    requires
        0 <= line <= k,
        crate::scan::line_start(d, line as nat) == Some(pos),
        crate::scan::line_start(d, k as nat) == Some(ls),
        q.len() > 0,
        0 <= c,
        hit_at(searched_bytes(d.subrange(ls, line_end(d, ls)), cs), q, whole, c),
    ensures
        text_hits(d, q, cs, whole, pos, line).contains((k, c, ls + c)),
    decreases d.len() - pos,
{
    crate::scan::lemma_line_start_bounds(d, 0, line as nat);
    crate::scan::lemma_line_start_compose(d, 0, line as nat, (k - line) as nat);
    assert(line as nat + (k - line) as nat == k as nat);
    crate::scan::lemma_next_newline_bounds(d, ls);
    crate::scan::lemma_next_newline_bounds(d, pos);
    if k == line {
        assert(ls == pos);
        assert(pos < d.len());
        let e = line_end(d, pos);
        let sb = searched_bytes(d.subrange(pos, e), cs);
        lemma_line_hits_complete(sb, q, whole, 0, line, pos, c);
        let first = line_hits(sb, q, whole, 0, line, pos);
        let rest: Seq<(int, int, int)> = if e < d.len() {
            text_hits(d, q, cs, whole, e + 1, line + 1)
        } else {
            Seq::empty()
        };
        let all = text_hits(d, q, cs, whole, pos, line);
        assert(all == first + rest);
        let j = choose|j: int| 0 <= j < first.len() && first[j] == (k, c, ls + c);
        assert(all[j] == (k, c, ls + c));
    } else {
        // Line `k` lies after line `line`: the latter ends with a newline.
        assert(crate::scan::line_start_from(d, pos, (k - line) as nat) == Some(ls));
        assert(crate::scan::next_newline(d, pos) is Some);
        let e = line_end(d, pos);
        assert(crate::scan::line_start_from(d, e + 1, (k - line - 1) as nat) == Some(ls));
        crate::scan::lemma_line_start_compose(d, 0, line as nat, 1);
        assert(crate::scan::line_start_from(d, e + 1, 0) == Some(e + 1));
        assert(crate::scan::line_start(d, (line + 1) as nat) == Some(e + 1));
        lemma_text_hits_complete(d, q, cs, whole, e + 1, line + 1, k, ls, c);
        let sb = searched_bytes(d.subrange(pos, e), cs);
        let first = line_hits(sb, q, whole, 0, line, pos);
        let rest = text_hits(d, q, cs, whole, e + 1, line + 1);
        let all = text_hits(d, q, cs, whole, pos, line);
        assert(pos < d.len());
        assert(all == first + rest);
        let j = choose|j: int| 0 <= j < rest.len() && rest[j] == (k, c, ls + c);
        assert(all[first.len() + j] == (k, c, ls + c));
    }
}

/// A case-sensitive search reports every occurrence of the query inside a line: wherever
/// the query's bytes stand at column `col` of line `line`, with no newline among them (and,
/// for whole words, no ASCII letter, digit or `_` just before or just after them), some
/// match is reported at that line and column.
pub proof fn lemma_every_occurrence_is_found(
    content: Seq<u8>,
    query: Seq<char>,
    options: SearchOptions,
    r: Seq<SearchMatch>,
    line: nat,
    col: int,
)
    requires
        text_results(content, query, options, r),
        options.case_sensitive,
        query.len() > 0,
        content.len() <= u32::MAX,
        0 <= col,
        crate::scan::line_start(content, line) matches Some(ls) && {
            let p = ls + col;
            let e = p + vstd::utf8::encode_utf8(query).len();
            &&& e <= content.len()
            &&& content.subrange(p, e) == vstd::utf8::encode_utf8(query)
            &&& forall|j: int| ls <= j < e ==> #[trigger] content[j] != 10u8
            &&& options.whole_word ==> p == 0 || !(48 <= content[p - 1] <= 57 || 65 <= content[p
                - 1] <= 90 || 97 <= content[p - 1] <= 122 || content[p - 1] == 95)
            &&& options.whole_word ==> e == content.len() || !(48 <= content[e] <= 57 || 65
                <= content[e] <= 90 || 97 <= content[e] <= 122 || content[e] == 95)
        },
    ensures
        exists|i: int| 0 <= i < r.len() && (#[trigger] r[i]).line == line && r[i].col == col,
{
    let d = content;
    let q = vstd::utf8::encode_utf8(query);
    lemma_encode_nonempty(query);
    let ls = crate::scan::line_start(d, line).unwrap();
    let p = ls + col;
    let e = p + q.len();
    crate::scan::lemma_line_start_bounds(d, 0, line);
    crate::scan::lemma_next_newline_bounds(d, ls);
    let le = line_end(d, ls);
    match crate::scan::next_newline(d, ls) {
        Some(jn) => {
            if jn < e {
                assert(d[jn] != 10u8);
            }
        },
        None => {},
    }
    assert(e <= le);
    let lb = d.subrange(ls, le);
    assert(searched_bytes(lb, true) == lb);
    assert(lb.subrange(col, col + q.len()) =~= d.subrange(p, e));
    if options.whole_word {
        if col > 0 {
            assert(lb[col - 1] == d[p - 1]);
        }
        if col + q.len() < lb.len() {
            assert(lb[col + q.len()] == d[e]);
        }
    }
    assert(hit_at(lb, q, options.whole_word, col));
    assert(crate::scan::line_start(d, 0) == Some(0int));
    lemma_text_hits_complete(d, q, true, options.whole_word, 0, 0, line as int, ls, col);
    let hits = text_hits(d, q, true, options.whole_word, 0, 0);
    let j = choose|j: int| 0 <= j < hits.len() && hits[j] == (line as int, col, ls + col);
    assert(reports(r[j], hits[j], d, q.len()));
    assert(col <= u32::MAX);
    assert(r[j].line == line && r[j].col == col);
}

} // verus!

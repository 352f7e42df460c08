//! Regular-expression search: the `regex` crate finds the matches, and their line and
//! column are worked out here.

use vstd::prelude::*;
use vstd::string::StringExecFns;
use crate::scan::next_newline_exec;
use crate::search::types::{SearchMatch, SearchOptions};
use crate::utf8::decode_lossy;

verus! {

/// The spans (byte offsets of start and end) of the successive non-overlapping matches
/// that the `regex` crate finds for `pattern`, compiled case-insensitively when `ci`
/// holds, in `text`; `None` when the pattern does not compile.
pub uninterp spec fn regex_find(pattern: Seq<char>, ci: bool, text: Seq<char>) -> Option<
    Seq<(usize, usize)>,
>;

/// The spans lie inside a text of `n` bytes, each non-empty or empty but not reversed,
/// in order and without overlap.
pub open spec fn spans_ordered(v: Seq<(usize, usize)>, n: int) -> bool {
    &&& forall|i: int| 0 <= i < v.len() ==> (#[trigger] v[i]).0 <= v[i].1 <= n
    &&& forall|i: int, j: int| 0 <= i < j < v.len() ==> (#[trigger] v[i]).1 <= (#[trigger] v[j]).0
}

/// The pattern searched for: wrapped in word boundaries `\b` when whole words are asked.
pub open spec fn regex_source(pattern: Seq<char>, whole_word: bool) -> Seq<char> {
    if whole_word {
        seq!['\\', 'b'] + pattern + seq!['\\', 'b']
    } else {
        pattern
    }
}

/// `m` reports the match that spans `sp` in `d`: its line, its column from the line
/// start (truncated to `u32`), its length (truncated to `u32`) and its text.
pub open spec fn reports_span(m: SearchMatch, sp: (usize, usize), d: Seq<u8>) -> bool {
    &&& m.line == crate::scan::newline_count(d.take(sp.0 as int))
    &&& m.col == (sp.0 - crate::scan::line_begin(d, sp.0 as int)) as u32
    &&& m.length == (sp.1 - sp.0) as u32
    &&& m.text@ == crate::utf8::lossy_utf8(d.subrange(sp.0 as int, sp.1 as int))
}

/// `r` is what a regex search for `pattern` in `content` finds: nothing for an empty
/// pattern, an empty or invalid UTF-8 content, or a pattern that does not compile; else one
/// match reporting each span that the regex finds, in order.
pub open spec fn regex_results(content: Seq<u8>, pattern: Seq<char>, options: SearchOptions, r: Seq<
    SearchMatch,
>) -> bool {
    if pattern.len() == 0 || content.len() == 0 || !vstd::utf8::valid_utf8(content) {
        r.len() == 0
    } else {
        match regex_find(
            regex_source(pattern, options.whole_word),
            !options.case_sensitive,
            vstd::utf8::decode_utf8(content),
        ) {
            None => r.len() == 0,
            Some(spans) => {
                &&& spans_ordered(spans, content.len() as int)
                &&& r.len() == spans.len()
                &&& forall|i: int| 0 <= i < spans.len() ==> reports_span(#[trigger] r[i], spans[i], content)
            },
        }
    }
}

/// `std::str::from_utf8(bytes).ok()`: the bytes as a string when they are valid UTF-8.
#[verifier::external_body]
fn utf8_str(bytes: &[u8]) -> (r: Option<&str>)
    ensures
        r is Some <==> vstd::utf8::valid_utf8(bytes@),
        r matches Some(s) ==> vstd::utf8::encode_utf8(s@) == bytes@,
{
    std::str::from_utf8(bytes).ok()
}

/// Compiles `pattern` with `regex::RegexBuilder` (case-insensitive when `ci` holds) and
/// collects the start and end of every match of `Regex::find_iter` on `text`; `None`
/// when `build` fails. The spans are stated to be in order, non-overlapping and inside
/// `text`, as `find_iter` documents; which spans they are is named, not stated.
#[verifier::external_body]
fn regex_find_all(pattern: &str, ci: bool, text: &str) -> (r: Option<Vec<(usize, usize)>>)
    ensures
        match r {
            Some(v) => regex_find(pattern@, ci, text@) == Some(v@) && spans_ordered(
                v@,
                vstd::utf8::encode_utf8(text@).len() as int,
            ),
            None => regex_find(pattern@, ci, text@) is None,
        },
{
    match regex::RegexBuilder::new(pattern).case_insensitive(ci).build() {
        Ok(re) => Some(re.find_iter(text).map(|m| (m.start(), m.end())).collect()),
        Err(_) => None,
    }
}

/// Line, column, length and text of each match span in `content`.
pub fn matches_at_spans(content: &[u8], spans: &[(usize, usize)]) -> (r: Vec<SearchMatch>)
    requires
        spans_ordered(spans@, content@.len() as int),
    ensures
        r@.len() == spans@.len(),
        forall|i: int| 0 <= i < spans@.len() ==> reports_span(#[trigger] r@[i], spans@[i], content@),
{
    let ghost d = content@;
    let mut matches: Vec<SearchMatch> = Vec::new();
    let mut line: u64 = 0;
    let mut line_start: usize = 0;
    let mut k: usize = 0;
    while k < spans.len()
        invariant
            d == content@,
            spans_ordered(spans@, d.len() as int),
            k <= spans@.len(),
            matches@.len() == k,
            forall|i: int| 0 <= i < k ==> reports_span(#[trigger] matches@[i], spans@[i], d),
            line_start <= d.len(),
            line <= line_start,
            line == crate::scan::newline_count(d.take(line_start as int)),
            line_start == 0 || crate::scan::is_nl(d[line_start - 1]),
            k > 0 ==> line_start <= spans@[k - 1].0,
            k == 0 ==> line_start == 0,
        decreases spans@.len() - k,
    {
        let (start, end) = spans[k];
        proof {
            if k > 0 {
                assert(spans@[k - 1].1 <= spans@[k as int].0);
                assert(spans@[k - 1].0 <= spans@[k - 1].1);
            }
        }
        // Calculate line and column for this match
        let hay = &content[0..start];
        let mut done = false;
        while line_start < start && !done
            invariant
                d == content@,
                hay@ == d.take(start as int),
                start <= d.len(),
                line_start <= start,
                line <= line_start,
                line == crate::scan::newline_count(d.take(line_start as int)),
                line_start == 0 || crate::scan::is_nl(d[line_start - 1]),
                done ==> forall|i: int| line_start <= i < start ==> !crate::scan::is_nl(#[trigger] d[i]),
            decreases (start - line_start) * 2 + if done { 0int } else { 1int },
        {
            match next_newline_exec(hay, line_start) {
                Some(nl) => {
                    proof {
                        crate::scan::lemma_next_newline_bounds(hay@, line_start as int);
                        assert forall|i: int| line_start <= i < nl implies !crate::scan::is_nl(
                            #[trigger] d[i],
                        ) by {
                            assert(hay@[i] == d[i]);
                        }
                        assert(d[nl as int] == hay@[nl as int]);
                        crate::scan::lemma_count_plain(d, line_start as int, nl as int);
                        crate::scan::lemma_count_newline(d, nl as int);
                    }
                    line_start = nl + 1;
                    line = line + 1;
                },
                None => {
                    proof {
                        crate::scan::lemma_next_newline_bounds(hay@, line_start as int);
                        assert forall|i: int| line_start <= i < start implies !crate::scan::is_nl(
                            #[trigger] d[i],
                        ) by {
                            assert(hay@[i] == d[i]);
                        }
                    }
                    done = true;
                },
            }
        }
        proof {
            crate::scan::lemma_count_plain(d, line_start as int, start as int);
            crate::scan::lemma_line_begin_plain(d, line_start as int, start as int);
        }
        let col = start - line_start;
        let matched_text = decode_lossy(&content[start..end]);
        matches.push(
            SearchMatch {
                line,
                col: #[verifier::truncate] (col as u32),
                length: #[verifier::truncate] ((end - start) as u32),
                text: matched_text,
            },
        );
        k = k + 1;
    }
    matches
}

/// Search for a regex pattern in `content`.
/// Returns all matches with line/column information.
pub fn search_regex(content: &[u8], pattern: &str, options: &SearchOptions) -> (r: Vec<SearchMatch>)
    ensures
        regex_results(content@, pattern@, *options, r@),
{
    if pattern.is_empty() || content.len() == 0 {
        return Vec::new();
    }
    // Build the pattern
    let regex_str = if options.whole_word {
        let mut s = String::from_str("\\b");
        s.append(pattern);
        s.append("\\b");
        s
    } else {
        String::from_str(pattern)
    };
    proof {
        if options.whole_word {
            assert("\\b"@ == seq!['\\', 'b']) by {
                reveal_strlit("\\b");
            }
        }
        assert(regex_str@ == regex_source(pattern@, options.whole_word));
    }
    let text = match utf8_str(content) {
        Some(s) => s,
        None => return Vec::new(),
    };
    proof {
        vstd::utf8::encode_utf8_decode_utf8(text@);
    }
    match regex_find_all(regex_str.as_str(), !options.case_sensitive, text) {
        Some(spans) => matches_at_spans(content, spans.as_slice()),
        None => Vec::new(),
    }
}

/// A whole-word regex search finds exactly what a plain regex search finds for the pattern
/// wrapped in word boundaries, `\b` before and after it.
pub proof fn lemma_whole_word_regex_is_bounded_pattern(
    content: Seq<u8>,
    pattern: Seq<char>,
    case_sensitive: bool,
    r: Seq<SearchMatch>,
)
    requires
        pattern.len() > 0,
    ensures
        regex_results(
            content,
            pattern,
            (SearchOptions { case_sensitive, whole_word: true, regex: true }),
            r,
        ) <==> regex_results(
            content,
            "\\b"@ + pattern + "\\b"@,
            (SearchOptions { case_sensitive, whole_word: false, regex: true }),
            r,
        ),
{
    reveal_strlit("\\b");
    assert("\\b"@ =~= seq!['\\', 'b']);
    assert(("\\b"@ + pattern + "\\b"@).len() > 0);
}

/// The line that holds offset `s` starts where `line_begin` puts it: past as many newlines
/// as stand before `s`, with none between that start and `s`.
proof fn lemma_line_begin_is_line_start(d: Seq<u8>, s: int)
    requires
        0 <= s <= d.len(),
    ensures
        crate::scan::line_start(d, crate::scan::newline_count(d.take(s))) == Some(
            crate::scan::line_begin(d, s),
        ),
        0 <= crate::scan::line_begin(d, s) <= s,
        forall|j: int| crate::scan::line_begin(d, s) <= j < s ==> !crate::scan::is_nl(#[trigger] d[j]),
    decreases s,
{
    if s == 0 {
        assert(d.take(0) =~= Seq::<u8>::empty());
    } else {
        lemma_line_begin_is_line_start(d, s - 1);
        let lb = crate::scan::line_begin(d, s - 1);
        let n = crate::scan::newline_count(d.take(s - 1));
        if crate::scan::is_nl(d[s - 1]) {
            crate::scan::lemma_count_newline(d, s - 1);
            crate::scan::lemma_next_newline_found(d, lb, s - 1);
            crate::scan::lemma_line_start_compose(d, 0, n, 1);
            assert(crate::scan::line_start_from(d, s, 0) == Some(s));
        } else {
            crate::scan::lemma_count_plain(d, s - 1, s);
        }
    }
}

/// Each regex match reports where its span starts: the start of its line plus its column
/// is the span's start, its length is the span's length, and its text is the span's bytes
/// (decoded lossily).
pub proof fn lemma_regex_matches_locate_spans(
    content: Seq<u8>,
    pattern: Seq<char>,
    options: SearchOptions,
    r: Seq<SearchMatch>,
)
    requires
        regex_results(content, pattern, options, r),
        content.len() <= u32::MAX,
        pattern.len() > 0,
        vstd::utf8::valid_utf8(content),
    ensures
        match regex_find(
            regex_source(pattern, options.whole_word),
            !options.case_sensitive,
            vstd::utf8::decode_utf8(content),
        ) {
            Some(spans) => forall|i: int|
                0 <= i < r.len() ==> (crate::scan::line_start(content, (#[trigger] r[i]).line as nat)
                    matches Some(ls) && ls + r[i].col == spans[i].0 && r[i].length == spans[i].1
                    - spans[i].0 && r[i].text@ == crate::utf8::lossy_utf8(
                    content.subrange(spans[i].0 as int, spans[i].1 as int),
                )),
            None => r.len() == 0,
        },
{
    if content.len() > 0 {
        match regex_find(
            regex_source(pattern, options.whole_word),
            !options.case_sensitive,
            vstd::utf8::decode_utf8(content),
        ) {
            Some(spans) => {
                assert forall|i: int| 0 <= i < r.len() implies (crate::scan::line_start(
                    content,
                    (#[trigger] r[i]).line as nat,
                ) matches Some(ls) && ls + r[i].col == spans[i].0 && r[i].length == spans[i].1
                    - spans[i].0 && r[i].text@ == crate::utf8::lossy_utf8(
                    content.subrange(spans[i].0 as int, spans[i].1 as int),
                )) by {
                    assert(reports_span(r[i], spans[i], content));
                    let sp = spans[i];
                    assert(sp.0 <= sp.1 <= content.len());
                    lemma_line_begin_is_line_start(content, sp.0 as int);
                }
            },
            None => {},
        }
    }
}

} // verus!

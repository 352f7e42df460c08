//! Encoding detection (byte-order mark, then `chardetng`), conversion to UTF-8
//! (`encoding_rs`), and line-ending detection.

use vstd::prelude::*;
use vstd::string::StringExecFns;
use crate::search::text_search::ascii_lowercase;
use crate::utf8::decode_lossy;

verus! {

/// Detected encoding information for a file.
#[derive(Debug, Clone)]
pub struct EncodingInfo {
    /// The detected encoding name (e.g., "UTF-8", "GBK", "Shift_JIS")
    pub encoding: String,
    /// Whether a BOM was detected
    pub has_bom: bool,
    /// The detected line ending style
    pub line_ending: LineEnding,
}

/// Line ending style.
#[derive(Debug, Clone, Copy, PartialEq, Eq, Structural)]
pub enum LineEnding {
    /// Unix-style \n
    LF,
    /// Windows-style \r\n
    CRLF,
    /// Mixed or unknown
    Mixed,
}

/// Length of the byte-order mark that `b` starts with: UTF-8 (3), UTF-32BE (4),
/// UTF-32LE (4), UTF-16BE (2), UTF-16LE (2), checked in that order; 0 for none.
pub open spec fn bom_len_of(b: Seq<u8>) -> nat {
    if b.len() >= 3 && b[0] == 0xEFu8 && b[1] == 0xBBu8 && b[2] == 0xBFu8 {
        3
    } else if b.len() >= 4 && b[0] == 0u8 && b[1] == 0u8 && b[2] == 0xFEu8 && b[3] == 0xFFu8 {
        4
    } else if b.len() >= 4 && b[0] == 0xFFu8 && b[1] == 0xFEu8 && b[2] == 0u8 && b[3] == 0u8 {
        4
    } else if b.len() >= 2 && b[0] == 0xFEu8 && b[1] == 0xFFu8 {
        2
    } else if b.len() >= 2 && b[0] == 0xFFu8 && b[1] == 0xFEu8 {
        2
    } else {
        0
    }
}

/// Name of the encoding that the byte-order mark of `b` announces ("UTF-8" without one).
pub open spec fn bom_name(b: Seq<u8>) -> Seq<char> {
    if b.len() >= 3 && b[0] == 0xEFu8 && b[1] == 0xBBu8 && b[2] == 0xBFu8 {
        "UTF-8"@
    } else if b.len() >= 4 && b[0] == 0u8 && b[1] == 0u8 && b[2] == 0xFEu8 && b[3] == 0xFFu8 {
        "UTF-32BE"@
    } else if b.len() >= 4 && b[0] == 0xFFu8 && b[1] == 0xFEu8 && b[2] == 0u8 && b[3] == 0u8 {
        "UTF-32LE"@
    } else if b.len() >= 2 && b[0] == 0xFEu8 && b[1] == 0xFFu8 {
        "UTF-16BE"@
    } else if b.len() >= 2 && b[0] == 0xFFu8 && b[1] == 0xFEu8 {
        "UTF-16LE"@
    } else {
        "UTF-8"@
    }
}

/// The name of the encoding that `chardetng` guesses for `bytes` (fed as the whole input,
/// no top-level domain, UTF-8 allowed).
pub uninterp spec fn chardet_guess(bytes: Seq<u8>) -> Seq<char>;

/// What `encoding_rs` decodes `bytes` to with the encoding that `label` names (with BOM
/// sniffing, malformed sequences replaced); `None` when `label` names no encoding.
pub uninterp spec fn labelled_decode(label: Seq<u8>, bytes: Seq<u8>) -> Option<Seq<char>>;

/// What `encoding_rs::UTF_8` decodes `bytes` to (with BOM sniffing, malformed sequences
/// replaced).
pub uninterp spec fn utf8_sniff_decode(bytes: Seq<u8>) -> Seq<char>;

/// `a` and `b` are equal up to ASCII case.
pub open spec fn ascii_ci_eq(a: Seq<u8>, b: Seq<u8>) -> bool {
    a.len() == b.len() && forall|i: int|
        0 <= i < a.len() ==> crate::search::text_search::ascii_lower(#[trigger] a[i])
            == crate::search::text_search::ascii_lower(b[i])
}

/// The bytes of the label "UTF-8".
pub open spec fn utf8_label() -> Seq<u8> {
    seq![85u8, 84u8, 70u8, 45u8, 56u8]
}

/// `b` without its first `bom_len` bytes, when it is longer than that.
pub open spec fn bom_stripped(b: Seq<u8>, bom_len: int) -> Seq<u8> {
    if bom_len > 0 && b.len() > bom_len {
        b.skip(bom_len)
    } else {
        b
    }
}

/// The UTF-8 text that `b` converts to under the encoding `name`, skipping `bom_len`
/// bytes: lossy UTF-8 decoding for "UTF-8" (any ASCII case), otherwise `encoding_rs`
/// under that label, or under UTF-8 when the label is unknown.
pub open spec fn converted_text(b: Seq<u8>, name: Seq<char>, bom_len: int) -> Seq<char> {
    let data = bom_stripped(b, bom_len);
    let label = vstd::utf8::encode_utf8(name);
    if ascii_ci_eq(label, utf8_label()) {
        crate::utf8::lossy_utf8(data)
    } else {
        match labelled_decode(label, data) {
            Some(t) => t,
            None => utf8_sniff_decode(data),
        }
    }
}

/// The first `max_scan` bytes of `b` (all of them when it is shorter): all that
/// detection reads.
pub open spec fn scan_prefix(b: Seq<u8>, max_scan: int) -> Seq<u8> {
    b.take(if b.len() < max_scan { b.len() as int } else { max_scan })
}

/// The encoding `detect` reports: the byte-order mark's, else `chardetng`'s guess, both
/// taken from the first `max_scan` bytes.
pub open spec fn detected_name(b: Seq<u8>, max_scan: int) -> Seq<char> {
    let p = scan_prefix(b, max_scan);
    if bom_len_of(p) > 0 {
        bom_name(p)
    } else {
        chardet_guess(p)
    }
}

/// The text that detection looks at for line endings: the first `max_scan` bytes
/// converted to UTF-8 under the detected encoding, without their byte-order mark.
pub open spec fn detected_text(b: Seq<u8>, max_scan: int) -> Seq<char> {
    let p = scan_prefix(b, max_scan);
    converted_text(p, detected_name(b, max_scan), bom_len_of(p) as int)
}

/// The line-ending style `detect` reports: that of the first 64KB of the detected text.
pub open spec fn detected_ending(b: Seq<u8>, max_scan: int) -> LineEnding {
    let t = vstd::utf8::encode_utf8(detected_text(b, max_scan));
    ending_of(t.take(ending_scan_len(t)))
}

/// Detection reports the same on two inputs that share their first `max_scan` bytes:
/// it reads nothing past them.
pub proof fn lemma_detect_reads_prefix(b1: Seq<u8>, b2: Seq<u8>, max_scan: int)
    requires
        scan_prefix(b1, max_scan) == scan_prefix(b2, max_scan),
    ensures
        detected_name(b1, max_scan) == detected_name(b2, max_scan),
        bom_len_of(scan_prefix(b1, max_scan)) == bom_len_of(scan_prefix(b2, max_scan)),
        detected_ending(b1, max_scan) == detected_ending(b2, max_scan),
{
}

/// A prefix of at least 4 bytes starts with the same byte-order mark as the whole.
pub proof fn lemma_bom_of_prefix(b: Seq<u8>, max_scan: int)
    requires
        max_scan >= 4,
    ensures
        bom_len_of(scan_prefix(b, max_scan)) == bom_len_of(b),
        bom_name(scan_prefix(b, max_scan)) == bom_name(b),
{
    let p = scan_prefix(b, max_scan);
    assert(b.len() >= 4 ==> p.len() >= 4);
    assert(b.len() < 4 ==> p =~= b);
    assert(forall|i: int| 0 <= i < p.len() ==> p[i] == b[i]);
}

/// The number of leading bytes examined for line endings.
pub open spec fn ending_scan_len(t: Seq<u8>) -> int {
    if t.len() < 65536 {
        t.len() as int
    } else {
        65536
    }
}

/// The line-ending scan of `t` cuts it at a character boundary.
pub open spec fn ending_scan_ok(t: Seq<char>) -> bool {
    vstd::utf8::is_char_boundary(vstd::utf8::encode_utf8(t), ending_scan_len(vstd::utf8::encode_utf8(t)))
}

/// `b` holds `"\r\n"`.
pub open spec fn has_crlf(b: Seq<u8>) -> bool {
    exists|i: int| 0 <= i && i + 1 < b.len() && b[i] == 13u8 && #[trigger] b[i + 1] == 10u8
}

/// `b` holds a `'\n'` not preceded by `'\r'`.
pub open spec fn has_lone_lf(b: Seq<u8>) -> bool {
    exists|i: int| 0 <= i < b.len() && #[trigger] b[i] == 10u8 && (i == 0 || b[i - 1] != 13u8)
}

/// The line-ending style of `b`: CRLF when only `"\r\n"` occurs, Mixed when both it and a
/// lone `'\n'` occur, LF otherwise (also with no line ending at all).
pub open spec fn ending_of(b: Seq<u8>) -> LineEnding {
    if has_crlf(b) && !has_lone_lf(b) {
        LineEnding::CRLF
    } else if has_crlf(b) && has_lone_lf(b) {
        LineEnding::Mixed
    } else {
        LineEnding::LF
    }
}

/// `chardetng`: `EncodingDetector::new`, `feed(bytes, true)`, then `guess(None, true)`
/// and the guessed encoding's `name`. The name is stated to be `chardet_guess` of `bytes`.
#[verifier::external_body]
fn guess_encoding(bytes: &[u8]) -> (r: String)
    ensures
        r@ == chardet_guess(bytes@),
{
    let mut detector = chardetng::EncodingDetector::new();
    detector.feed(bytes, true);
    detector.guess(None, true).name().to_string()
}

/// `encoding_rs`: `Encoding::for_label(label)`, and when that names an encoding, its
/// `decode(bytes)` (BOM sniffing, replacement of malformed sequences), as an owned string.
/// `decode` panics only when its output buffer size overflows `usize`, which the bound on
/// `bytes` rules out.
#[verifier::external_body]
fn decode_labelled(label: &[u8], bytes: &[u8]) -> (r: Option<String>)
    requires
        bytes@.len() <= usize::MAX / 8,
    ensures
        match r {
            Some(s) => labelled_decode(label@, bytes@) == Some(s@),
            None => labelled_decode(label@, bytes@) is None,
        },
{
    match encoding_rs::Encoding::for_label(label) {
        Some(enc) => Some(enc.decode(bytes).0.into_owned()),
        None => None,
    }
}

/// `encoding_rs::UTF_8.decode(bytes)` (BOM sniffing, replacement of malformed sequences),
/// as an owned string.
#[verifier::external_body]
fn decode_utf8_sniffing(bytes: &[u8]) -> (r: String)
    requires
        bytes@.len() <= usize::MAX / 8,
    ensures
        r@ == utf8_sniff_decode(bytes@),
{
    encoding_rs::UTF_8.decode(bytes).0.into_owned()
}

/// Whether `a` and `b` are equal up to ASCII case.
pub fn eq_ignore_ascii_case(a: &[u8], b: &[u8]) -> (r: bool)
    ensures
        r == ascii_ci_eq(a@, b@),
{
    if a.len() != b.len() {
        return false;
    }
    let la = ascii_lowercase(a);
    let lb = ascii_lowercase(b);
    let mut i: usize = 0;
    while i < la.len()
        invariant
            la@ == crate::search::text_search::lower_bytes(a@),
            lb@ == crate::search::text_search::lower_bytes(b@),
            a@.len() == b@.len(),
            i <= la@.len(),
            forall|j: int|
                0 <= j < i ==> crate::search::text_search::ascii_lower(#[trigger] a@[j])
                    == crate::search::text_search::ascii_lower(b@[j]),
        decreases la@.len() - i,
    {
        if la[i] != lb[i] {
            return false;
        }
        i = i + 1;
    }
    true
}

/// Length of the byte-order mark at the start of `bytes`, with the encoding it names.
fn detect_bom(bytes: &[u8]) -> (r: (bool, &'static str, usize))
    ensures
        r.0 == (bom_len_of(bytes@) > 0),
        r.1@ == bom_name(bytes@),
        r.2 == bom_len_of(bytes@),
{
    if bytes.len() >= 3 && bytes[0] == 0xEF && bytes[1] == 0xBB && bytes[2] == 0xBF {
        return (true, "UTF-8", 3);
    }
    if bytes.len() >= 4 && bytes[0] == 0x00 && bytes[1] == 0x00 && bytes[2] == 0xFE && bytes[3]
        == 0xFF {
        return (true, "UTF-32BE", 4);
    }
    if bytes.len() >= 4 && bytes[0] == 0xFF && bytes[1] == 0xFE && bytes[2] == 0x00 && bytes[3]
        == 0x00 {
        return (true, "UTF-32LE", 4);
    }
    if bytes.len() >= 2 && bytes[0] == 0xFE && bytes[1] == 0xFF {
        return (true, "UTF-16BE", 2);
    }
    if bytes.len() >= 2 && bytes[0] == 0xFF && bytes[1] == 0xFE {
        return (true, "UTF-16LE", 2);
    }
    (false, "UTF-8", 0)
}

/// Convert raw bytes to a UTF-8 String using the detected encoding.
pub fn convert_to_utf8(bytes: &[u8], encoding_name: &str, bom_len: usize) -> (r: String)
    requires
        bytes@.len() <= usize::MAX / 8,
    ensures
        r@ == converted_text(bytes@, encoding_name@, bom_len as int),
{
    let data = if bom_len > 0 && bytes.len() > bom_len {
        &bytes[bom_len..bytes.len()]
    } else {
        bytes
    };
    proof {
        assert(data@ =~= bom_stripped(bytes@, bom_len as int));
    }
    let label = [85u8, 84u8, 70u8, 45u8, 56u8];
    let label_bytes = vstd::array::array_as_slice(&label);
    proof {
        assert(label_bytes@ =~= utf8_label());
    }
    // Check if already valid UTF-8
    if eq_ignore_ascii_case(encoding_name.as_bytes(), label_bytes) {
        decode_lossy(data)
    } else {
        // Try to find the encoding_rs encoding
        match decode_labelled(encoding_name.as_bytes(), data) {
            Some(s) => s,
            None => decode_utf8_sniffing(data),
        }
    }
}

/// Detect the line-ending style from the first 64KB of `text`.
pub fn detect_line_ending(text: &str) -> (r: LineEnding)
    requires
        vstd::utf8::is_char_boundary(vstd::utf8::encode_utf8(text@), ending_scan_len(vstd::utf8::encode_utf8(text@))),
    ensures
        r == ending_of(vstd::utf8::encode_utf8(text@).take(ending_scan_len(vstd::utf8::encode_utf8(text@)))),
{
    let mut has_lf = false;
    let mut has_crlf_pair = false;
    let bytes = text.as_bytes();
    // Check first 64KB
    let check_len = if bytes.len() < 65536 {
        bytes.len()
    } else {
        65536
    };
    let ghost b = bytes@.take(check_len as int);
    let mut i: usize = 0;
    while i < check_len
        invariant
            b == bytes@.take(check_len as int),
            check_len <= bytes@.len(),
            i <= check_len,
            i > 0 && i <= check_len && b[i - 1] == 13u8 ==> !(i < check_len && b[i as int] == 10u8),
            has_crlf_pair == exists|j: int|
                0 <= j && j + 1 < check_len && j < i && b[j] == 13u8 && #[trigger] b[j + 1] == 10u8,
            has_lf == exists|j: int|
                0 <= j < check_len && j < i && #[trigger] b[j] == 10u8 && (j == 0 || b[j - 1] != 13u8),
        decreases check_len - i,
    {
        let ghost i0 = i as int;
        proof {
            assert(b[i0] == bytes@[i0]);
            if i0 + 1 < check_len {
                assert(b[i0 + 1] == bytes@[i0 + 1]);
            }
        }
        if bytes[i] == 13u8 {
            if i + 1 < check_len && bytes[i + 1] == 10u8 {
                has_crlf_pair = true;
                i = i + 2;
                proof {
                    assert(b[i0] == 13u8 && b[i0 + 1] == 10u8);
                }
            } else {
                i = i + 1;
            }
        } else {
            if bytes[i] == 10u8 {
                has_lf = true;
                proof {
                    assert(b[i0] == 10u8 && (i0 == 0 || b[i0 - 1] != 13u8));
                }
            }
            i = i + 1;
        }
    }
    proof {
        assert(has_crlf_pair == has_crlf(b));
        assert(has_lf == has_lone_lf(b));
    }
    if has_crlf_pair && !has_lf {
        LineEnding::CRLF
    } else if has_crlf_pair && has_lf {
        LineEnding::Mixed
    } else {
        LineEnding::LF
    }
}

/// The first `max_scan` bytes of `bytes` (all of them when it is shorter).
fn prefix(bytes: &[u8], max_scan: usize) -> (r: &[u8])
    ensures
        r@ == scan_prefix(bytes@, max_scan as int),
{
    let scan_len = if bytes.len() < max_scan {
        bytes.len()
    } else {
        max_scan
    };
    let scan_bytes = &bytes[0..scan_len];
    proof {
        assert(scan_bytes@ =~= bytes@.take(scan_len as int));
    }
    scan_bytes
}

/// The encoding name that detection reports for the bytes `scan` it reads, whether a
/// byte-order mark was found, and its length.
fn encoding_of(scan: &[u8]) -> (r: (String, bool, usize))
    ensures
        r.0@ == (if bom_len_of(scan@) > 0 { bom_name(scan@) } else { chardet_guess(scan@) }),
        r.1 == (bom_len_of(scan@) > 0),
        r.2 == bom_len_of(scan@),
{
    // Check for BOM first
    let (has_bom, encoding_name, bom_len) = detect_bom(scan);
    let encoding = if has_bom {
        String::from_str(encoding_name)
    } else {
        // Use chardetng for detection
        guess_encoding(scan)
    };
    (encoding, has_bom, bom_len)
}

/// Detect encoding and line endings from raw file bytes.
/// Only reads the first `max_scan` bytes to keep it fast: the byte-order mark, the
/// encoding guess and the line endings all come from them.
pub fn detect(bytes: &[u8], max_scan: usize) -> (r: EncodingInfo)
    requires
        bytes@.len() <= usize::MAX / 8,
        ending_scan_ok(detected_text(bytes@, max_scan as int)),
    ensures
        r.encoding@ == detected_name(bytes@, max_scan as int),
        r.has_bom == (bom_len_of(scan_prefix(bytes@, max_scan as int)) > 0),
        r.line_ending == detected_ending(bytes@, max_scan as int),
{
    let scan = prefix(bytes, max_scan);
    let (encoding, has_bom, bom_len) = encoding_of(scan);
    // Convert the bytes read to UTF-8 for line ending detection
    let utf8_text = convert_to_utf8(scan, encoding.as_str(), bom_len);
    let line_ending = detect_line_ending(utf8_text.as_str());
    EncodingInfo { encoding, has_bom, line_ending }
}

/// Detection as `detect` does it, or `None` where `detect` cannot go: when the first 64KB
/// of the text it converts would end inside a character.
pub fn try_detect(bytes: &[u8], max_scan: usize) -> (r: Option<EncodingInfo>)
    requires
        bytes@.len() <= usize::MAX / 8,
    ensures
        r is Some <==> ending_scan_ok(detected_text(bytes@, max_scan as int)),
        r matches Some(info) ==> {
            &&& info.encoding@ == detected_name(bytes@, max_scan as int)
            &&& info.has_bom == (bom_len_of(scan_prefix(bytes@, max_scan as int)) > 0)
            &&& info.line_ending == detected_ending(bytes@, max_scan as int)
        },
{
    let scan = prefix(bytes, max_scan);
    let (encoding, _has_bom, bom_len) = encoding_of(scan);
    let utf8_text = convert_to_utf8(scan, encoding.as_str(), bom_len);
    let text = utf8_text.as_str();
    let text_len = text.as_bytes().len();
    let check_len = if text_len < 65536 {
        text_len
    } else {
        65536
    };
    if text.is_char_boundary(check_len) {
        Some(detect(bytes, max_scan))
    } else {
        None
    }
}

/// How the encoding `name` writes the character U+FEFF (the byte-order mark): UTF-8 by
/// its three-byte form, UTF-16 and UTF-32 by the code point's bytes, high byte first for
/// big endian and low byte first for little endian; `None` for any other name.
pub open spec fn mark_in(name: Seq<char>) -> Option<Seq<u8>> {
    let cp: int = 0xFEFF;
    if name == "UTF-8"@ {
        Some(vstd::utf8::encode_scalar(0xFEFFu32))
    } else if name == "UTF-16BE"@ {
        Some(seq![(cp / 0x100) as u8, (cp % 0x100) as u8])
    } else if name == "UTF-16LE"@ {
        Some(seq![(cp % 0x100) as u8, (cp / 0x100) as u8])
    } else if name == "UTF-32BE"@ {
        Some(
            seq![
                (cp / 0x1000000) as u8,
                (cp / 0x10000 % 0x100) as u8,
                (cp / 0x100 % 0x100) as u8,
                (cp % 0x100) as u8,
            ],
        )
    } else if name == "UTF-32LE"@ {
        Some(
            seq![
                (cp % 0x100) as u8,
                (cp / 0x100 % 0x100) as u8,
                (cp / 0x10000 % 0x100) as u8,
                (cp / 0x1000000) as u8,
            ],
        )
    } else {
        None
    }
}

/// When the bytes read start with a byte-order mark, the encoding detection reports is
/// the one that writes U+FEFF as exactly those leading bytes.
pub proof fn lemma_bom_names_its_encoding(b: Seq<u8>, max_scan: int)
    requires
        bom_len_of(scan_prefix(b, max_scan)) > 0,
    ensures
        mark_in(detected_name(b, max_scan)) == Some(
            scan_prefix(b, max_scan).take(bom_len_of(scan_prefix(b, max_scan)) as int),
        ),
{
    reveal_strlit("UTF-8");
    reveal_strlit("UTF-16BE");
    reveal_strlit("UTF-16LE");
    reveal_strlit("UTF-32BE");
    reveal_strlit("UTF-32LE");
    let p = scan_prefix(b, max_scan);
    let n = bom_len_of(p) as int;
    assert(vstd::utf8::encode_scalar(0xFEFFu32) =~= seq![0xEFu8, 0xBBu8, 0xBFu8]) by {
        assert(((0xFEFFu32 >> 12u32) & 0x0Fu32) as u8 == 0x0Fu8) by (bit_vector);
        assert(0xE0u8 | 0x0Fu8 == 0xEFu8) by (bit_vector);
        assert(((0xFEFFu32 >> 6u32) & 0x3Fu32) as u8 == 0x3Bu8) by (bit_vector);
        assert(0x80u8 | 0x3Bu8 == 0xBBu8) by (bit_vector);
        assert((0xFEFFu32 & 0x3Fu32) as u8 == 0x3Fu8) by (bit_vector);
        assert(0x80u8 | 0x3Fu8 == 0xBFu8) by (bit_vector);
    }
    assert("UTF-8"@ != "UTF-16BE"@ && "UTF-8"@ != "UTF-16LE"@ && "UTF-8"@ != "UTF-32BE"@
        && "UTF-8"@ != "UTF-32LE"@) by {
        assert("UTF-8"@.len() == 5);
        assert("UTF-16BE"@.len() == 8 && "UTF-16LE"@.len() == 8);
        assert("UTF-32BE"@.len() == 8 && "UTF-32LE"@.len() == 8);
    }
    assert("UTF-16BE"@ != "UTF-16LE"@) by {
        assert("UTF-16BE"@[6] != "UTF-16LE"@[6]);
    }
    assert("UTF-16BE"@ != "UTF-32BE"@ && "UTF-16BE"@ != "UTF-32LE"@ && "UTF-16LE"@
        != "UTF-32BE"@) by {
        assert("UTF-16BE"@[4] != "UTF-32BE"@[4]);
    }
    assert("UTF-16LE"@ != "UTF-32LE"@) by {
        assert("UTF-16LE"@[4] != "UTF-32LE"@[4]);
    }
    assert("UTF-32BE"@ != "UTF-32LE"@) by {
        assert("UTF-32BE"@[6] != "UTF-32LE"@[6]);
    }
    if n == 3 {
        assert(p.take(n) =~= seq![0xEFu8, 0xBBu8, 0xBFu8]);
        assert(detected_name(b, max_scan) == "UTF-8"@);
    } else if n == 4 {
        if p[0] == 0u8 {
            assert(p.take(n) =~= seq![0u8, 0u8, 0xFEu8, 0xFFu8]);
            assert(detected_name(b, max_scan) == "UTF-32BE"@);
        } else {
            assert(p.take(n) =~= seq![0xFFu8, 0xFEu8, 0u8, 0u8]);
            assert(detected_name(b, max_scan) == "UTF-32LE"@);
        }
    } else {
        if p[0] == 0xFEu8 {
            assert(p.take(n) =~= seq![0xFEu8, 0xFFu8]);
            assert(detected_name(b, max_scan) == "UTF-16BE"@);
        } else {
            assert(p.take(n) =~= seq![0xFFu8, 0xFEu8]);
            assert(detected_name(b, max_scan) == "UTF-16LE"@);
        }
    }
}
/// Detection takes the longest byte-order mark the bytes read start with: no encoding's
/// mark that they start with is longer than the mark found, and with no mark found they
/// start with none.
pub proof fn lemma_bom_is_longest_mark(b: Seq<u8>, max_scan: int, name: Seq<char>)
    ensures
        match mark_in(name) {
            Some(m) => m.len() <= scan_prefix(b, max_scan).len() && scan_prefix(b, max_scan).take(
                m.len() as int,
            ) == m ==> m.len() <= bom_len_of(scan_prefix(b, max_scan)),
            None => true,
        },
{
    reveal_strlit("UTF-8");
    reveal_strlit("UTF-16BE");
    reveal_strlit("UTF-16LE");
    reveal_strlit("UTF-32BE");
    reveal_strlit("UTF-32LE");
    let p = scan_prefix(b, max_scan);
    assert(vstd::utf8::encode_scalar(0xFEFFu32) =~= seq![0xEFu8, 0xBBu8, 0xBFu8]) by {
        assert(((0xFEFFu32 >> 12u32) & 0x0Fu32) as u8 == 0x0Fu8) by (bit_vector);
        assert(0xE0u8 | 0x0Fu8 == 0xEFu8) by (bit_vector);
        assert(((0xFEFFu32 >> 6u32) & 0x3Fu32) as u8 == 0x3Bu8) by (bit_vector);
        assert(0x80u8 | 0x3Bu8 == 0xBBu8) by (bit_vector);
        assert((0xFEFFu32 & 0x3Fu32) as u8 == 0x3Fu8) by (bit_vector);
        assert(0x80u8 | 0x3Fu8 == 0xBFu8) by (bit_vector);
    }
    if let Some(m) = mark_in(name) {
        if m.len() <= p.len() && p.take(m.len() as int) == m {
            let t = p.take(m.len() as int);
            if m.len() == 3 {
                assert(t[0] == m[0] && t[1] == m[1] && t[2] == m[2]);
            } else if m.len() == 4 {
                assert(t[0] == m[0] && t[1] == m[1] && t[2] == m[2] && t[3] == m[3]);
            } else if m.len() == 2 {
                assert(t[0] == m[0] && t[1] == m[1]);
            }
        }
    }
}

} // verus!

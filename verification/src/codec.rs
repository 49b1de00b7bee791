//! Header codec: converting between raw note text and (header fields, body).
//!
//! A note's text may begin with one or more header blocks. A block is a
//! region of lines bounded by delimiter lines (lines that hold `---` once
//! surrounding whitespace is removed); inside it, lines of the form
//! `key: value` carry metadata. A block counts as a well-formed header only
//! if it carries both an `id` field and a `createdAt` field; anything else
//! that merely looks like a block is left alone as body text.
//!
//! Text is handled as UTF-8 bytes; lines are separated by the newline byte.

use vstd::prelude::*;

verus! {

/// Byte values the codec treats as whitespace when trimming a line: the
/// ASCII whitespace characters. Multi-byte Unicode whitespace is left in
/// place; the codec's line model is deliberately byte-level.
pub open spec fn is_ws(b: u8) -> bool {
    b == 32 || b == 9 || b == 10 || b == 11 || b == 12 || b == 13
}

/// A delimiter line holds exactly this once trimmed: `---`.
pub open spec fn delim_bytes() -> Seq<u8> {
    seq!['-' as u8, '-' as u8, '-' as u8]
}

/// The field key `id`.
pub open spec fn key_id() -> Seq<u8> {
    seq!['i' as u8, 'd' as u8]
}

/// The field key `createdAt`.
pub open spec fn key_created_at() -> Seq<u8> {
    seq![
        'c' as u8,
        'r' as u8,
        'e' as u8,
        'a' as u8,
        't' as u8,
        'e' as u8,
        'd' as u8,
        'A' as u8,
        't' as u8,
    ]
}

/// Index just past the line that starts at `i`: the position of the next
/// newline byte at or after `i`, or the end of the text.
pub open spec fn line_end(s: Seq<u8>, i: int) -> int
    decreases s.len() - i,
        when 0 <= i <= s.len()
{
    if i >= s.len() {
        s.len() as int
    } else if s[i] == 10 {
        i
    } else {
        line_end(s, i + 1)
    }
}

/// Start of the line after the one that starts at `i` (the end of the text
/// if there is none).
pub open spec fn next_line(s: Seq<u8>, i: int) -> int {
    if line_end(s, i) < s.len() {
        line_end(s, i) + 1
    } else {
        s.len() as int
    }
}

/// Whether a line begins at `i`: the very start of the text, or just after
/// a newline byte.
pub open spec fn is_line_start(s: Seq<u8>, i: int) -> bool {
    i == 0 || s[i - 1] == 10
}

/// First position in `[lo, hi)` holding a non-whitespace byte, or `hi`.
pub open spec fn skip_ws_fwd(s: Seq<u8>, lo: int, hi: int) -> int
    decreases hi - lo,
        when 0 <= lo <= hi <= s.len()
{
    if lo >= hi {
        lo
    } else if is_ws(s[lo]) {
        skip_ws_fwd(s, lo + 1, hi)
    } else {
        lo
    }
}

/// Position just past the last non-whitespace byte in `[lo, hi)`, or `lo`.
pub open spec fn skip_ws_back(s: Seq<u8>, lo: int, hi: int) -> int
    decreases hi - lo,
        when 0 <= lo <= hi <= s.len()
{
    if hi <= lo {
        hi
    } else if is_ws(s[hi - 1]) {
        skip_ws_back(s, lo, hi - 1)
    } else {
        hi
    }
}

/// The bytes of `[lo, hi)` with leading and trailing whitespace removed.
pub open spec fn trimmed(s: Seq<u8>, lo: int, hi: int) -> Seq<u8> {
    let a = skip_ws_fwd(s, lo, hi);
    s.subrange(a, skip_ws_back(s, a, hi))
}

/// Whether the line starting at `i` is a delimiter line.
pub open spec fn is_delim_at(s: Seq<u8>, i: int) -> bool {
    trimmed(s, i, line_end(s, i)) == delim_bytes()
}

/// Whether the line starting at `i` is of the form `key:` followed by a value.
pub open spec fn line_has_key(s: Seq<u8>, i: int, key: Seq<u8>) -> bool {
    let e = line_end(s, i);
    e - i > key.len() && s.subrange(i, i + key.len() + 1) == key.push(58)
}

/// The value of a `key:` line: what follows the colon, trimmed.
pub open spec fn field_value_at(s: Seq<u8>, i: int, key: Seq<u8>) -> Seq<u8> {
    trimmed(s, i + key.len() + 1, line_end(s, i))
}

/// Start of the first delimiter line at or after `i` (stepping over whole
/// lines), or the end of the text.
pub open spec fn find_delim_line(s: Seq<u8>, i: int) -> int
    decreases s.len() - i,
        when 0 <= i <= s.len()
        via find_delim_line_dec
{
    if i >= s.len() {
        s.len() as int
    } else if is_delim_at(s, i) {
        i
    } else {
        find_delim_line(s, next_line(s, i))
    }
}

#[via_fn]
proof fn find_delim_line_dec(s: Seq<u8>, i: int) {
    if 0 <= i < s.len() && !is_delim_at(s, i) {
        lemma_line_end_props(s, i);
    }
}

/// Start of the first `key:` line at or after `i` but before `close`
/// (stepping over whole lines), or `close` if there is none.
pub open spec fn find_field_line(s: Seq<u8>, i: int, close: int, key: Seq<u8>) -> int
    decreases s.len() - i,
        when 0 <= i <= s.len() && close <= s.len()
        via find_field_line_dec
{
    if i >= close {
        close
    } else if line_has_key(s, i, key) {
        i
    } else {
        find_field_line(s, next_line(s, i), close, key)
    }
}

#[via_fn]
proof fn find_field_line_dec(s: Seq<u8>, i: int, close: int, key: Seq<u8>) {
    if 0 <= i <= s.len() && close <= s.len() && i < close && !line_has_key(s, i, key) {
        lemma_line_end_props(s, i);
    }
}

/// If a well-formed header block starts at `p` (opening delimiter line, a
/// closing delimiter line, and both an `id` and a `createdAt` field between
/// them), the position just past the closing delimiter line.
pub open spec fn header_block_end_at(s: Seq<u8>, p: int) -> Option<int> {
    if p < s.len() && is_delim_at(s, p) {
        let inner = next_line(s, p);
        let close = find_delim_line(s, inner);
        if close < s.len() {
            if find_field_line(s, inner, close, key_id()) < close && find_field_line(
                s,
                inner,
                close,
                key_created_at(),
            ) < close {
                Some(next_line(s, close))
            } else {
                None
            }
        } else {
            None
        }
    } else {
        None
    }
}

/// Whether the text itself begins with a well-formed header block, and where
/// that block ends.
pub open spec fn header_block_end(s: Seq<u8>) -> Option<int> {
    header_block_end_at(s, 0)
}

/// Whether the text begins with a well-formed header block.
pub open spec fn starts_with_header_block(s: Seq<u8>) -> bool {
    header_block_end(s).is_some()
}

/// The body: the text with every leading well-formed header block removed.
pub open spec fn spec_extract_body(s: Seq<u8>) -> Seq<u8>
    decreases s.len(),
        via spec_extract_body_dec
{
    match header_block_end(s) {
        Some(e) => spec_extract_body(s.subrange(e, s.len() as int)),
        None => s,
    }
}

#[via_fn]
proof fn spec_extract_body_dec(s: Seq<u8>) {
    if header_block_end(s).is_some() {
        lemma_header_block_end_range(s);
    }
}

/// The value of the first `key:` line of the first delimited block: lines
/// are scanned from the first delimiter line to the next one (or to the end
/// of the text if the block never closes).
pub open spec fn spec_parse_field(s: Seq<u8>, key: Seq<u8>) -> Option<Seq<u8>> {
    let d = find_delim_line(s, 0);
    if d < s.len() {
        let start = next_line(s, d);
        let close = find_delim_line(s, start);
        let f = find_field_line(s, start, close, key);
        if f < close {
            Some(field_value_at(s, f, key))
        } else {
            None
        }
    } else {
        None
    }
}

/// `"---\nid: "`, the opening of a canonical header block.
pub open spec fn header_open() -> Seq<u8> {
    delim_bytes() + seq![10u8] + key_id() + seq![58u8, 32u8]
}

/// `"\ncreatedAt: "`, between the two canonical fields.
pub open spec fn header_middle() -> Seq<u8> {
    seq![10u8] + key_created_at() + seq![58u8, 32u8]
}

/// `"\n---\n"`, the closing of a canonical header block.
pub open spec fn header_close() -> Seq<u8> {
    seq![10u8] + delim_bytes() + seq![10u8]
}

/// The canonical content of a note file: one header block holding `id` and
/// `createdAt`, followed by the body.
pub open spec fn spec_build_content(id: Seq<u8>, created_at: Seq<u8>, body: Seq<u8>) -> Seq<u8> {
    header_open() + id + header_middle() + created_at + header_close() + body
}

/// A `key: value` line (without its newline).
pub open spec fn field_line(key: Seq<u8>, value: Seq<u8>) -> Seq<u8> {
    key + seq![58u8, 32u8] + value
}

/// A freshly synthesized block holding exactly one field.
pub open spec fn synth_block(key: Seq<u8>, value: Seq<u8>) -> Seq<u8> {
    delim_bytes() + seq![10u8] + field_line(key, value) + seq![10u8] + delim_bytes() + seq![10u8]
}

/// Updating a field: if a delimited block exists, its first `key:` line is
/// replaced in place, or a `key: value` line is inserted just before the
/// closing delimiter if the key is absent; with no block at all, a block
/// holding exactly the updated key is placed in front of the content.
pub open spec fn spec_update_field(s: Seq<u8>, key: Seq<u8>, value: Seq<u8>) -> Seq<u8> {
    let d = find_delim_line(s, 0);
    if d < s.len() {
        let start = next_line(s, d);
        let close = find_delim_line(s, start);
        if close < s.len() {
            let f = find_field_line(s, start, close, key);
            if f < close {
                s.subrange(0, f) + field_line(key, value) + s.subrange(
                    line_end(s, f),
                    s.len() as int,
                )
            } else {
                s.subrange(0, close) + field_line(key, value) + seq![10u8] + s.subrange(
                    close,
                    s.len() as int,
                )
            }
        } else {
            synth_block(key, value) + s
        }
    } else {
        synth_block(key, value) + s
    }
}

/// Preview length cap, in characters.
pub const PREVIEW_LEN: usize = 50;

/// A UTF-8 continuation byte: part of a multi-byte character, never the
/// start of one.
pub open spec fn is_utf8_continuation(b: u8) -> bool {
    128 <= b && b < 192
}

/// Position just past the first `n` characters at or after `i`: continuation
/// bytes belong to the character they continue, and the cut falls on a
/// character boundary (or the end of the text).
pub open spec fn char_cut(s: Seq<u8>, i: int, n: int) -> int
    decreases s.len() - i,
        when 0 <= i <= s.len() && 0 <= n
{
    if i >= s.len() {
        s.len() as int
    } else if is_utf8_continuation(s[i]) {
        char_cut(s, i + 1, n)
    } else if n == 0 {
        i
    } else {
        char_cut(s, i + 1, n - 1)
    }
}

/// `char_cut` stays within the text.
pub proof fn lemma_char_cut_range(s: Seq<u8>, i: int, n: int)
    requires
        0 <= i <= s.len(),
        0 <= n,
    ensures
        i <= char_cut(s, i, n) <= s.len(),
    decreases s.len() - i,
{
    if i < s.len() && (is_utf8_continuation(s[i]) || n > 0) {
        if is_utf8_continuation(s[i]) {
            lemma_char_cut_range(s, i + 1, n);
        } else {
            lemma_char_cut_range(s, i + 1, n - 1);
        }
    }
}

/// The first line that is nonempty once trimmed, trimmed and capped at its
/// first `PREVIEW_LEN` characters; none if every line is blank.
pub open spec fn spec_first_line_preview(s: Seq<u8>, i: int) -> Option<Seq<u8>>
    decreases s.len() - i,
        when 0 <= i <= s.len()
        via spec_first_line_preview_dec
{
    if i >= s.len() {
        None
    } else {
        let t = trimmed(s, i, line_end(s, i));
        if t.len() > 0 {
            Some(t.subrange(0, char_cut(t, 0, PREVIEW_LEN as int)))
        } else {
            spec_first_line_preview(s, next_line(s, i))
        }
    }
}

#[via_fn]
proof fn spec_first_line_preview_dec(s: Seq<u8>, i: int) {
    if 0 <= i < s.len() {
        lemma_line_end_props(s, i);
    }
}

/// Properties of `line_end`: it stays within the line's bounds, lands on a
/// newline byte unless the text ends first, and skips no newline.
pub proof fn lemma_line_end_props(s: Seq<u8>, i: int)
    requires
        0 <= i <= s.len(),
    ensures
        i <= line_end(s, i) <= s.len(),
        line_end(s, i) < s.len() ==> s[line_end(s, i)] == 10,
        forall|k: int| i <= k < line_end(s, i) ==> s[k] != 10,
    decreases s.len() - i,
{
    if i < s.len() && s[i] != 10 {
        lemma_line_end_props(s, i + 1);
    }
}

/// Any position with the properties of `line_end` is `line_end`.
pub proof fn lemma_line_end_from_props(s: Seq<u8>, i: int, e: int)
    requires
        0 <= i <= e <= s.len(),
        e < s.len() ==> s[e] == 10,
        forall|k: int| i <= k < e ==> s[k] != 10,
    ensures
        line_end(s, i) == e,
{
    lemma_line_end_props(s, i);
    let r = line_end(s, i);
    if r < e {
        assert(s[r] != 10);
    }
    if e < r {
        assert(s[e] != 10);
    }
}

/// Properties of `skip_ws_fwd`: everything skipped is whitespace and the
/// landing byte is not.
pub proof fn lemma_skip_ws_fwd_props(s: Seq<u8>, lo: int, hi: int)
    requires
        0 <= lo <= hi <= s.len(),
    ensures
        lo <= skip_ws_fwd(s, lo, hi) <= hi,
        skip_ws_fwd(s, lo, hi) < hi ==> !is_ws(s[skip_ws_fwd(s, lo, hi)]),
        forall|k: int| lo <= k < skip_ws_fwd(s, lo, hi) ==> is_ws(s[k]),
    decreases hi - lo,
{
    if lo < hi && is_ws(s[lo]) {
        lemma_skip_ws_fwd_props(s, lo + 1, hi);
    }
}

/// Any position with the properties of `skip_ws_fwd` is `skip_ws_fwd`.
pub proof fn lemma_skip_ws_fwd_from_props(s: Seq<u8>, lo: int, hi: int, a: int)
    requires
        0 <= lo <= a <= hi <= s.len(),
        a < hi ==> !is_ws(s[a]),
        forall|k: int| lo <= k < a ==> is_ws(s[k]),
    ensures
        skip_ws_fwd(s, lo, hi) == a,
{
    lemma_skip_ws_fwd_props(s, lo, hi);
    let r = skip_ws_fwd(s, lo, hi);
    if r < a {
        assert(is_ws(s[r]));
    }
    if a < r {
        assert(is_ws(s[a]));
    }
}

/// Properties of `skip_ws_back`: everything skipped is whitespace and the
/// byte just before the landing point is not.
pub proof fn lemma_skip_ws_back_props(s: Seq<u8>, lo: int, hi: int)
    requires
        0 <= lo <= hi <= s.len(),
    ensures
        lo <= skip_ws_back(s, lo, hi) <= hi,
        skip_ws_back(s, lo, hi) > lo ==> !is_ws(s[skip_ws_back(s, lo, hi) - 1]),
        forall|k: int| skip_ws_back(s, lo, hi) <= k < hi ==> is_ws(s[k]),
    decreases hi - lo,
{
    if hi > lo && is_ws(s[hi - 1]) {
        lemma_skip_ws_back_props(s, lo, hi - 1);
    }
}

/// Any position with the properties of `skip_ws_back` is `skip_ws_back`.
pub proof fn lemma_skip_ws_back_from_props(s: Seq<u8>, lo: int, hi: int, b: int)
    requires
        0 <= lo <= b <= hi <= s.len(),
        b > lo ==> !is_ws(s[b - 1]),
        forall|k: int| b <= k < hi ==> is_ws(s[k]),
    ensures
        skip_ws_back(s, lo, hi) == b,
{
    lemma_skip_ws_back_props(s, lo, hi);
    let r = skip_ws_back(s, lo, hi);
    if r < b {
        assert(is_ws(s[b - 1]));
    }
    if b < r {
        assert(is_ws(s[r - 1]));
    }
}

/// Properties of `next_line`: it advances when it can, lands on a line
/// start, and skips no line start.
pub proof fn lemma_next_line_props(s: Seq<u8>, i: int)
    requires
        0 <= i <= s.len(),
    ensures
        i <= next_line(s, i) <= s.len(),
        i < s.len() ==> i < next_line(s, i),
        next_line(s, i) < s.len() ==> is_line_start(s, next_line(s, i)),
        forall|j: int| i < j < next_line(s, i) ==> !is_line_start(s, j),
{
    lemma_line_end_props(s, i);
    assert forall|j: int| i < j < next_line(s, i) implies !is_line_start(s, j) by {
        assert(s[j - 1] != 10);
    }
}

/// Properties of `find_delim_line`: it lands on the first delimiter line.
pub proof fn lemma_find_delim_line_props(s: Seq<u8>, i: int)
    requires
        0 <= i <= s.len(),
    ensures
        i <= find_delim_line(s, i) <= s.len(),
        find_delim_line(s, i) < s.len() ==> is_delim_at(s, find_delim_line(s, i)),
        find_delim_line(s, i) < s.len() && i < find_delim_line(s, i) ==> is_line_start(
            s,
            find_delim_line(s, i),
        ),
        forall|j: int|
            i <= j < find_delim_line(s, i) && is_line_start(s, j) ==> !is_delim_at(s, j),
    decreases s.len() - i,
{
    if i < s.len() && !is_delim_at(s, i) {
        lemma_next_line_props(s, i);
        lemma_find_delim_line_props(s, next_line(s, i));
        let n = next_line(s, i);
        let r = find_delim_line(s, i);
        assert forall|j: int| i <= j < r && is_line_start(s, j) implies !is_delim_at(s, j) by {
            if j > i && j < n {
                assert(!is_line_start(s, j));
            }
        }
    }
}

/// Any position with the properties of `find_delim_line` is
/// `find_delim_line`, provided the search starts at a line start.
pub proof fn lemma_find_delim_line_from_props(s: Seq<u8>, i: int, e: int)
    requires
        0 <= i <= e <= s.len(),
        is_line_start(s, i),
        e < s.len() ==> is_line_start(s, e) && is_delim_at(s, e),
        forall|j: int| i <= j < e && is_line_start(s, j) ==> !is_delim_at(s, j),
    ensures
        find_delim_line(s, i) == e,
{
    lemma_find_delim_line_props(s, i);
    let r = find_delim_line(s, i);
    if r < e {
        assert(is_line_start(s, r) && is_delim_at(s, r));
        assert(false);
    }
    if e < r {
        assert(!is_delim_at(s, e));
        assert(false);
    }
}

/// Properties of `find_field_line`: it lands on the first `key:` line
/// before `close`.
pub proof fn lemma_find_field_line_props(s: Seq<u8>, i: int, close: int, key: Seq<u8>)
    requires
        0 <= i <= s.len(),
        0 <= close <= s.len(),
    ensures
        find_field_line(s, i, close, key) <= close,
        i <= close ==> i <= find_field_line(s, i, close, key),
        find_field_line(s, i, close, key) < close ==> line_has_key(
            s,
            find_field_line(s, i, close, key),
            key,
        ),
        find_field_line(s, i, close, key) < close && i < find_field_line(s, i, close, key)
            ==> is_line_start(s, find_field_line(s, i, close, key)),
        forall|j: int|
            i <= j < find_field_line(s, i, close, key) && is_line_start(s, j) ==> !line_has_key(
                s,
                j,
                key,
            ),
    decreases s.len() - i,
{
    if i < close && !line_has_key(s, i, key) {
        lemma_next_line_props(s, i);
        let n = next_line(s, i);
        lemma_find_field_line_props(s, n, close, key);
        let r = find_field_line(s, i, close, key);
        assert forall|j: int| i <= j < r && is_line_start(s, j) implies !line_has_key(s, j, key) by {
            if j > i && j < n {
                assert(!is_line_start(s, j));
            }
        }
    }
}

/// Any position with the properties of `find_field_line` is
/// `find_field_line`, provided the search starts at a line start.
pub proof fn lemma_find_field_line_from_props(s: Seq<u8>, i: int, close: int, key: Seq<u8>, e: int)
    requires
        0 <= i <= e <= close <= s.len(),
        is_line_start(s, i),
        e < close ==> is_line_start(s, e) && line_has_key(s, e, key),
        forall|j: int| i <= j < e && is_line_start(s, j) ==> !line_has_key(s, j, key),
    ensures
        find_field_line(s, i, close, key) == e,
{
    lemma_find_field_line_props(s, i, close, key);
    let r = find_field_line(s, i, close, key);
    if r < e {
        assert(is_line_start(s, r) && line_has_key(s, r, key));
        assert(false);
    }
    if e < r {
        assert(!line_has_key(s, e, key));
        assert(false);
    }
}

/// The end of the line at `i` depends only on the text from `i` on.
pub proof fn lemma_line_end_shift(s: Seq<u8>, d: int, i: int)
    requires
        0 <= d <= i <= s.len(),
    ensures
        line_end(s.subrange(d, s.len() as int), i - d) == line_end(s, i) - d,
{
    let t = s.subrange(d, s.len() as int);
    lemma_line_end_props(s, i);
    let e = line_end(s, i);
    assert forall|k: int| i - d <= k < e - d implies t[k] != 10 by {
        assert(t[k] == s[k + d]);
    }
    if e < s.len() {
        assert(t[e - d] == s[e]);
    }
    lemma_line_end_from_props(t, i - d, e - d);
}

/// Where leading whitespace ends depends only on the text from `lo` on.
pub proof fn lemma_skip_ws_fwd_shift(s: Seq<u8>, d: int, lo: int, hi: int)
    requires
        0 <= d <= lo <= hi <= s.len(),
    ensures
        skip_ws_fwd(s.subrange(d, s.len() as int), lo - d, hi - d) == skip_ws_fwd(s, lo, hi) - d,
{
    let t = s.subrange(d, s.len() as int);
    lemma_skip_ws_fwd_props(s, lo, hi);
    let a = skip_ws_fwd(s, lo, hi);
    assert forall|k: int| lo - d <= k < a - d implies is_ws(t[k]) by {
        assert(t[k] == s[k + d]);
    }
    if a < hi {
        assert(t[a - d] == s[a]);
    }
    lemma_skip_ws_fwd_from_props(t, lo - d, hi - d, a - d);
}

/// Where trailing whitespace starts depends only on the text from `lo` on.
pub proof fn lemma_skip_ws_back_shift(s: Seq<u8>, d: int, lo: int, hi: int)
    requires
        0 <= d <= lo <= hi <= s.len(),
    ensures
        skip_ws_back(s.subrange(d, s.len() as int), lo - d, hi - d) == skip_ws_back(s, lo, hi) - d,
{
    let t = s.subrange(d, s.len() as int);
    lemma_skip_ws_back_props(s, lo, hi);
    let b = skip_ws_back(s, lo, hi);
    assert forall|k: int| b - d <= k < hi - d implies is_ws(t[k]) by {
        assert(t[k] == s[k + d]);
    }
    if b > lo {
        assert(t[b - d - 1] == s[b - 1]);
    }
    lemma_skip_ws_back_from_props(t, lo - d, hi - d, b - d);
}

/// A trimmed range depends only on the text from `lo` on.
pub proof fn lemma_trimmed_shift(s: Seq<u8>, d: int, lo: int, hi: int)
    requires
        0 <= d <= lo <= hi <= s.len(),
    ensures
        trimmed(s.subrange(d, s.len() as int), lo - d, hi - d) == trimmed(s, lo, hi),
{
    let t = s.subrange(d, s.len() as int);
    lemma_skip_ws_fwd_shift(s, d, lo, hi);
    lemma_skip_ws_fwd_props(s, lo, hi);
    let a = skip_ws_fwd(s, lo, hi);
    lemma_skip_ws_back_shift(s, d, a, hi);
    lemma_skip_ws_back_props(s, a, hi);
    let b = skip_ws_back(s, a, hi);
    assert(t.subrange(a - d, b - d) =~= s.subrange(a, b));
}

/// Whether a delimiter line starts at `i` depends only on the text from `i` on.
pub proof fn lemma_is_delim_shift(s: Seq<u8>, d: int, i: int)
    requires
        0 <= d <= i <= s.len(),
    ensures
        is_delim_at(s.subrange(d, s.len() as int), i - d) == is_delim_at(s, i),
{
    lemma_line_end_props(s, i);
    lemma_line_end_shift(s, d, i);
    lemma_trimmed_shift(s, d, i, line_end(s, i));
}

/// Whether a `key:` line starts at `i` depends only on the text from `i` on.
pub proof fn lemma_line_has_key_shift(s: Seq<u8>, d: int, i: int, key: Seq<u8>)
    requires
        0 <= d <= i <= s.len(),
    ensures
        line_has_key(s.subrange(d, s.len() as int), i - d, key) == line_has_key(s, i, key),
{
    let t = s.subrange(d, s.len() as int);
    lemma_line_end_props(s, i);
    lemma_line_end_shift(s, d, i);
    let e = line_end(s, i);
    if e - i > key.len() {
        assert(t.subrange(i - d, i - d + key.len() + 1) =~= s.subrange(i, i + key.len() + 1));
    }
}

/// The next line start depends only on the text from `i` on.
pub proof fn lemma_next_line_shift(s: Seq<u8>, d: int, i: int)
    requires
        0 <= d <= i <= s.len(),
    ensures
        next_line(s.subrange(d, s.len() as int), i - d) == next_line(s, i) - d,
{
    lemma_line_end_props(s, i);
    lemma_line_end_shift(s, d, i);
}

/// The first delimiter line at or after `i` depends only on the text from
/// `i` on, for a search that starts at a line start.
pub proof fn lemma_find_delim_shift(s: Seq<u8>, d: int, i: int)
    requires
        0 <= d <= i <= s.len(),
        is_line_start(s, i) || i == d || i == s.len(),
    ensures
        find_delim_line(s.subrange(d, s.len() as int), i - d) == find_delim_line(s, i) - d,
{
    let t = s.subrange(d, s.len() as int);
    if i == s.len() && !(is_line_start(s, i) || i == d) {
        assert(find_delim_line(t, i - d) == t.len());
    } else {
        lemma_find_delim_line_props(s, i);
        let r = find_delim_line(s, i);
        if r < s.len() {
            lemma_is_delim_shift(s, d, r);
        }
        assert forall|j: int| i - d <= j < r - d && is_line_start(t, j) implies !is_delim_at(
            t,
            j,
        ) by {
            let jj = j + d;
            lemma_is_delim_shift(s, d, jj);
            if jj == i {
                assert(!is_delim_at(s, i));
            } else {
                assert(t[j - 1] == s[jj - 1]);
                assert(is_line_start(s, jj));
            }
        }
        if i == s.len() {
            assert(find_delim_line(t, i - d) == t.len());
        } else {
            lemma_find_delim_line_from_props(t, i - d, r - d);
        }
    }
}

/// The first `key:` line in a region depends only on the text from `i` on,
/// for a search that starts at a line start.
pub proof fn lemma_find_field_shift(s: Seq<u8>, d: int, i: int, close: int, key: Seq<u8>)
    requires
        0 <= d <= i <= s.len(),
        i <= close <= s.len(),
        is_line_start(s, i) || i == d || i == s.len(),
    ensures
        find_field_line(s.subrange(d, s.len() as int), i - d, close - d, key) == find_field_line(
            s,
            i,
            close,
            key,
        ) - d,
{
    let t = s.subrange(d, s.len() as int);
    if i == close {
        assert(find_field_line(s, i, close, key) == close);
        assert(find_field_line(t, i - d, close - d, key) == close - d);
    } else {
        lemma_find_field_line_props(s, i, close, key);
        let r = find_field_line(s, i, close, key);
        if r < close {
            lemma_line_has_key_shift(s, d, r, key);
        }
        assert forall|j: int| i - d <= j < r - d && is_line_start(t, j) implies !line_has_key(
            t,
            j,
            key,
        ) by {
            let jj = j + d;
            lemma_line_has_key_shift(s, d, jj, key);
            if jj == i {
                assert(!line_has_key(s, i, key));
            } else {
                assert(t[j - 1] == s[jj - 1]);
                assert(is_line_start(s, jj));
            }
        }
        lemma_find_field_line_from_props(t, i - d, close - d, key, r - d);
    }
}

/// Whether a well-formed header block starts at `p`, and where it ends,
/// depends only on the text from `p` on.
pub proof fn lemma_header_block_end_shift(s: Seq<u8>, p: int)
    requires
        0 <= p <= s.len(),
    ensures
        header_block_end(s.subrange(p, s.len() as int)) == (match header_block_end_at(s, p) {
            Some(e) => Some(e - p),
            None => None::<int>,
        }),
{
    let t = s.subrange(p, s.len() as int);
    if p < s.len() {
        lemma_is_delim_shift(s, p, p);
        if is_delim_at(s, p) {
            lemma_next_line_props(s, p);
            lemma_next_line_shift(s, p, p);
            let inner = next_line(s, p);
            lemma_find_delim_shift(s, p, inner);
            lemma_find_delim_line_props(s, inner);
            let close = find_delim_line(s, inner);
            if close < s.len() {
                lemma_find_field_shift(s, p, inner, close, key_id());
                lemma_find_field_shift(s, p, inner, close, key_created_at());
                lemma_next_line_shift(s, p, close);
            }
        }
    }
}

/// A well-formed header block ends after its first line and within the text.
pub proof fn lemma_header_block_end_range(s: Seq<u8>)
    requires
        header_block_end(s).is_some(),
    ensures
        0 < header_block_end(s).unwrap() <= s.len(),
        next_line(s, 0) <= header_block_end(s).unwrap(),
{
    lemma_line_end_props(s, 0);
    let inner = next_line(s, 0);
    lemma_find_delim_line_props(s, inner);
    let close = find_delim_line(s, inner);
    lemma_line_end_props(s, close);
    lemma_next_line_props(s, close);
}

/// A line that holds exactly `---` before a newline (or the end of the
/// text) is a delimiter line.
pub proof fn lemma_delim_line_here(s: Seq<u8>, i: int)
    requires
        0 <= i,
        i + 3 <= s.len(),
        s[i] == 45 && s[i + 1] == 45 && s[i + 2] == 45,
        i + 3 == s.len() || s[i + 3] == 10,
    ensures
        line_end(s, i) == i + 3,
        is_delim_at(s, i),
{
    lemma_line_end_from_props(s, i, i + 3);
    lemma_skip_ws_fwd_from_props(s, i, i + 3, i);
    lemma_skip_ws_back_from_props(s, i, i + 3, i + 3);
    assert(trimmed(s, i, i + 3) =~= delim_bytes());
}

/// A line holding a colon byte is never a delimiter line.
pub proof fn lemma_line_with_colon_not_delim(s: Seq<u8>, i: int, j: int)
    requires
        0 <= i <= j < line_end(s, i) <= s.len(),
        s[j] == 58,
    ensures
        !is_delim_at(s, i),
{
    let e = line_end(s, i);
    lemma_skip_ws_fwd_props(s, i, e);
    let a = skip_ws_fwd(s, i, e);
    lemma_skip_ws_back_props(s, a, e);
    let b = skip_ws_back(s, a, e);
    if trimmed(s, i, e) == delim_bytes() {
        assert(a <= j) by {
            if j < a {
                assert(is_ws(s[j]));
            }
        }
        assert(j < b) by {
            if b <= j {
                assert(is_ws(s[j]));
            }
        }
        assert(delim_bytes()[0] == 45 && delim_bytes()[1] == 45 && delim_bytes()[2] == 45);
        assert(b - a == 3) by {
            assert(s.subrange(a, b).len() == delim_bytes().len());
        }
        assert(trimmed(s, i, e)[j - a] == 58);
        assert(delim_bytes()[j - a] == 45);
    }
}

/// A `key: value` line laid out at `i`, with a newline (or the text's end)
/// after it, parses as a `key:` line ending where expected.
pub proof fn lemma_field_line_here(s: Seq<u8>, i: int, key: Seq<u8>, value: Seq<u8>)
    requires
        0 <= i,
        i + key.len() + 2 + value.len() <= s.len(),
        forall|k: int| 0 <= k < key.len() ==> s[i + k] == key[k],
        s[i + key.len()] == 58,
        s[i + key.len() + 1] == 32,
        forall|k: int| 0 <= k < value.len() ==> s[i + key.len() + 2 + k] == value[k],
        forall|k: int| 0 <= k < key.len() ==> key[k] != 10,
        forall|k: int| 0 <= k < value.len() ==> value[k] != 10,
        i + key.len() + 2 + value.len() == s.len() || s[i + key.len() + 2 + value.len()] == 10,
    ensures
        line_end(s, i) == i + key.len() + 2 + value.len(),
        line_has_key(s, i, key),
        !is_delim_at(s, i),
{
    let e = i + key.len() + 2 + value.len();
    assert forall|k: int| i <= k < e implies s[k] != 10 by {
        if k < i + key.len() {
            assert(s[k] == key[k - i]);
        } else if k >= i + key.len() + 2 {
            assert(s[k] == value[k - (i + key.len() + 2)]);
        }
    }
    lemma_line_end_from_props(s, i, e);
    assert(s.subrange(i, i + key.len() + 1) =~= key.push(58));
    lemma_line_with_colon_not_delim(s, i, i + key.len());
}

/// Two texts that agree on a prefix agree on whether a line that ends
/// inside that prefix is a delimiter line.
pub proof fn lemma_is_delim_agree(s1: Seq<u8>, s2: Seq<u8>, j: int, m: int)
    requires
        0 <= j,
        line_end(s1, j) < m,
        j <= m <= s1.len(),
        m <= s2.len(),
        forall|k: int| 0 <= k < m ==> s1[k] == s2[k],
    ensures
        line_end(s2, j) == line_end(s1, j),
        is_delim_at(s2, j) == is_delim_at(s1, j),
{
    lemma_line_end_props(s1, j);
    let e = line_end(s1, j);
    lemma_line_end_from_props(s2, j, e);
    lemma_skip_ws_fwd_props(s1, j, e);
    let a = skip_ws_fwd(s1, j, e);
    lemma_skip_ws_fwd_from_props(s2, j, e, a);
    lemma_skip_ws_back_props(s1, a, e);
    let b = skip_ws_back(s1, a, e);
    lemma_skip_ws_back_from_props(s2, a, e, b);
    assert(s1.subrange(a, b) =~= s2.subrange(a, b));
}

/// Two texts that agree on a prefix agree on whether a line that ends
/// inside that prefix is a `key:` line.
pub proof fn lemma_line_has_key_agree(s1: Seq<u8>, s2: Seq<u8>, j: int, m: int, key: Seq<u8>)
    requires
        0 <= j,
        line_end(s1, j) < m,
        j <= m <= s1.len(),
        m <= s2.len(),
        forall|k: int| 0 <= k < m ==> s1[k] == s2[k],
    ensures
        line_end(s2, j) == line_end(s1, j),
        line_has_key(s2, j, key) == line_has_key(s1, j, key),
{
    lemma_line_end_props(s1, j);
    let e = line_end(s1, j);
    lemma_line_end_from_props(s2, j, e);
    if e - j > key.len() {
        assert(s1.subrange(j, j + key.len() + 1) =~= s2.subrange(j, j + key.len() + 1));
    }
}

/// The bytes of a `key: value` line: the key, a colon, a space, the value,
/// and no newline anywhere.
pub proof fn lemma_field_line_bytes(key: Seq<u8>, value: Seq<u8>)
    ensures
        field_line(key, value).len() == key.len() + 2 + value.len(),
        forall|t: int| 0 <= t < key.len() ==> field_line(key, value)[t] == key[t],
        field_line(key, value)[key.len() as int] == 58,
        field_line(key, value)[key.len() as int + 1] == 32,
        forall|t: int|
            0 <= t < value.len() ==> field_line(key, value)[key.len() as int + 2 + t] == value[t],
        (forall|k: int| 0 <= k < key.len() ==> key[k] != 10) && (forall|k: int|
            0 <= k < value.len() ==> value[k] != 10) ==> forall|t: int|
            0 <= t < field_line(key, value).len() ==> field_line(key, value)[t] != 10,
{
}

/// Round trip of the codec: the body of a canonically built content is the
/// body it was built from, for any id and creation timestamp that fit on a
/// header line and any body that does not itself begin with a well-formed
/// header block.
pub proof fn lemma_header_round_trip(id: Seq<u8>, created_at: Seq<u8>, body: Seq<u8>)
    requires
        forall|k: int| 0 <= k < id.len() ==> id[k] != 10,
        forall|k: int| 0 <= k < created_at.len() ==> created_at[k] != 10,
        !starts_with_header_block(body),
    ensures
        spec_extract_body(spec_build_content(id, created_at, body)) == body,
{
    let s = spec_build_content(id, created_at, body);
    let nid = id.len() as int;
    let nca = created_at.len() as int;
    let e1 = 8 + nid;
    let c2 = e1 + 1;
    let e2 = c2 + 11 + nca;
    let c3 = e2 + 1;
    let e3 = c3 + 3;
    let d = e3 + 1;
    assert(header_open() =~= seq![45u8, 45u8, 45u8, 10u8, 105u8, 100u8, 58u8, 32u8]);
    assert(header_middle() =~= seq![
        10u8,
        99u8,
        114u8,
        101u8,
        97u8,
        116u8,
        101u8,
        100u8,
        65u8,
        116u8,
        58u8,
        32u8,
    ]);
    assert(header_close() =~= seq![10u8, 45u8, 45u8, 45u8, 10u8]);
    assert(key_created_at() =~= seq![99u8, 114u8, 101u8, 97u8, 116u8, 101u8, 100u8, 65u8, 116u8]);
    assert(key_id() =~= seq![105u8, 100u8]);
    assert(s.len() == d + body.len());
    assert(forall|k: int| 0 <= k < 8 ==> s[k] == header_open()[k]);
    assert(forall|k: int| 0 <= k < nid ==> s[8 + k] == id[k]);
    assert(forall|k: int| 0 <= k < 12 ==> s[e1 + k] == header_middle()[k]);
    assert(forall|k: int| 0 <= k < nca ==> s[c2 + 11 + k] == created_at[k]);
    assert(forall|k: int| 0 <= k < 5 ==> s[e2 + k] == header_close()[k]);
    assert(forall|k: int| 0 <= k < body.len() ==> s[d + k] == body[k]);
    // the opening delimiter line
    lemma_delim_line_here(s, 0);
    assert(next_line(s, 0) == 4);
    // the id line
    lemma_field_line_here(s, 4, key_id(), id);
    assert(line_end(s, 4) == e1);
    // the createdAt line
    lemma_field_line_here(s, c2, key_created_at(), created_at);
    assert(line_end(s, c2) == e2);
    // the closing delimiter line
    lemma_delim_line_here(s, c3);
    assert(line_end(s, c3) == e3);
    assert(next_line(s, c3) == d);
    // the closing delimiter is the first delimiter line after the opener
    assert(find_delim_line(s, 4) == c3) by {
        assert forall|j: int| 4 <= j < c3 && is_line_start(s, j) implies !is_delim_at(s, j) by {
            if j == 4 {
                lemma_field_line_here(s, 4, key_id(), id);
            } else if j == c2 {
                lemma_field_line_here(s, c2, key_created_at(), created_at);
            } else {
                if 4 <= j - 1 < e1 {
                    assert(s[j - 1] != 10);
                } else if c2 <= j - 1 < e2 {
                    assert(s[j - 1] != 10);
                }
                assert(false);
            }
        }
        lemma_find_delim_line_from_props(s, 4, c3);
    }
    // the id field is found on the first inner line
    assert(find_field_line(s, 4, c3, key_id()) == 4) by {
        lemma_field_line_here(s, 4, key_id(), id);
        lemma_find_field_line_from_props(s, 4, c3, key_id(), 4);
    }
    // the createdAt field is found on the second inner line
    assert(find_field_line(s, 4, c3, key_created_at()) == c2) by {
        lemma_field_line_here(s, c2, key_created_at(), created_at);
        assert forall|j: int| 4 <= j < c2 && is_line_start(s, j) implies !line_has_key(
            s,
            j,
            key_created_at(),
        ) by {
            if j == 4 {
                if line_has_key(s, j, key_created_at()) {
                    assert(s.subrange(4int, 14int)[0] == s[4]);
                    assert(key_created_at().push(58)[0] == 99);
                }
            } else {
                assert(s[j - 1] != 10);
                assert(false);
            }
        }
        lemma_find_field_line_from_props(s, 4, c3, key_created_at(), c2);
    }
    assert(header_block_end_at(s, 0) == Some(d));
    assert(spec_extract_body(s) == spec_extract_body(s.subrange(d, s.len() as int)));
    assert(s.subrange(d, s.len() as int) =~= body);
    assert(spec_extract_body(body) == body);
}

/// A field update that had to synthesize a block is idempotent: updating
/// the result again only rewrites the synthesized line with itself.
proof fn lemma_update_idem_synth(s: Seq<u8>, key: Seq<u8>, value: Seq<u8>)
    requires
        forall|k: int| 0 <= k < key.len() ==> key[k] != 10,
        forall|k: int| 0 <= k < value.len() ==> value[k] != 10,
    ensures
        spec_update_field(synth_block(key, value) + s, key, value) == synth_block(key, value) + s,
{
    let fl = field_line(key, value);
    let nf = fl.len() as int;
    let r = synth_block(key, value) + s;
    let cpos = 5 + nf;
    lemma_field_line_bytes(key, value);
    assert(synth_block(key, value).len() == cpos + 4);
    assert(r[0] == 45 && r[1] == 45 && r[2] == 45 && r[3] == 10);
    assert(forall|t: int| 0 <= t < nf ==> r[4 + t] == fl[t]);
    assert(r[4 + nf] == 10);
    assert(r[cpos] == 45 && r[cpos + 1] == 45 && r[cpos + 2] == 45 && r[cpos + 3] == 10);
    lemma_delim_line_here(r, 0);
    assert(find_delim_line(r, 0) == 0);
    assert(next_line(r, 0) == 4);
    assert forall|k: int| 0 <= k < key.len() implies r[4 + k] == key[k] by {
        assert(r[4 + k] == fl[k]);
    }
    assert(r[4 + key.len() as int] == fl[key.len() as int]);
    assert(r[4 + key.len() as int + 1] == fl[key.len() as int + 1]);
    assert forall|k: int| 0 <= k < value.len() implies r[4 + key.len() + 2 + k] == value[k] by {
        assert(r[4 + key.len() + 2 + k] == fl[key.len() as int + 2 + k]);
    }
    lemma_field_line_here(r, 4, key, value);
    assert(line_end(r, 4) == 4 + nf);
    lemma_delim_line_here(r, cpos);
    assert forall|j: int| 4 <= j < cpos && is_line_start(r, j) implies !is_delim_at(r, j) by {
        if j != 4 {
            assert(r[j - 1] == fl[j - 1 - 4]);
            assert(r[j - 1] != 10);
        }
    }
    lemma_find_delim_line_from_props(r, 4, cpos);
    lemma_find_field_line_from_props(r, 4, cpos, key, 4);
    assert(spec_update_field(r, key, value) == r.subrange(0, 4) + fl + r.subrange(
        4 + nf,
        r.len() as int,
    ));
    assert(spec_update_field(r, key, value) =~= r);
}

/// Updating a field twice with the same value yields what one update
/// yields, for any key and value that fit on a header line.
#[verifier::rlimit(100)]
pub proof fn lemma_update_field_idempotent(s: Seq<u8>, key: Seq<u8>, value: Seq<u8>)
    requires
        forall|k: int| 0 <= k < key.len() ==> key[k] != 10,
        forall|k: int| 0 <= k < value.len() ==> value[k] != 10,
    ensures
        spec_update_field(spec_update_field(s, key, value), key, value) == spec_update_field(
            s,
            key,
            value,
        ),
{
    let d = find_delim_line(s, 0);
    lemma_find_delim_line_props(s, 0);
    if d >= s.len() {
        lemma_update_idem_synth(s, key, value);
    } else {
        lemma_line_end_props(s, d);
        lemma_next_line_props(s, d);
        let le_d = line_end(s, d);
        let start = next_line(s, d);
        lemma_find_delim_line_props(s, start);
        let close = find_delim_line(s, start);
        if close >= s.len() {
            lemma_update_idem_synth(s, key, value);
        } else {
            assert(le_d < s.len()) by {
                if le_d >= s.len() {
                    assert(start == s.len() as int);
                }
            }
            assert(start == le_d + 1);
            assert(d == 0 || is_line_start(s, d));
            assert(s[le_d] == 10);
            assert(is_line_start(s, start));
            lemma_find_field_line_props(s, start, close, key);
            let f = find_field_line(s, start, close, key);
            let fl = field_line(key, value);
            let nf = fl.len() as int;
            lemma_field_line_bytes(key, value);
            assert(is_line_start(s, close)) by {
                if close > start {
                } else {
                    assert(close == start);
                }
            }
            assert(close > 0);
            if f < close {
                // the key was replaced in place
                assert(is_line_start(s, f)) by {
                    if f == start {
                        assert(s[start - 1] == 10);
                    }
                }
                assert(f > 0);
                lemma_line_end_props(s, f);
                let ef = line_end(s, f);
                assert(ef <= close - 1) by {
                    if ef > close - 1 {
                        assert(s[close - 1] != 10);
                    }
                }
                assert(s[ef] == 10);
                let r = s.subrange(0, f) + fl + s.subrange(ef, s.len() as int);
                assert(spec_update_field(s, key, value) == r);
                let g = f + nf;
                assert(r.len() == g + s.len() - ef);
                assert(forall|k: int| 0 <= k < f ==> r[k] == s[k]);
                assert(forall|t: int| 0 <= t < nf ==> r[f + t] == fl[t]);
                assert forall|u: int| 0 <= u < s.len() - ef implies #[trigger] r[g + u] == s[ef
                    + u] by {}
                assert(r[g] == s[ef]);
                assert(is_line_start(r, f));
                assert forall|k: int| 0 <= k < key.len() implies r[f + k] == key[k] by {
                    assert(r[f + k] == fl[k]);
                }
                assert(r[f + key.len()] == fl[key.len() as int]);
                assert(r[f + key.len() + 1] == fl[key.len() as int + 1]);
                assert forall|k: int| 0 <= k < value.len() implies r[f + key.len() + 2 + k]
                    == value[k] by {
                    assert(r[f + key.len() + 2 + k] == fl[key.len() as int + 2 + k]);
                }
                lemma_field_line_here(r, f, key, value);
                assert(line_end(r, f) == g);
                // the opening delimiter is found where it was
                assert(d < start);
                assert(le_d < f);
                lemma_is_delim_agree(s, r, d, f);
                assert forall|j: int| 0 <= j < d && is_line_start(r, j) implies !is_delim_at(
                    r,
                    j,
                ) by {
                    assert(is_line_start(s, j));
                    lemma_line_end_props(s, j);
                    assert(s[d - 1] == 10);
                    assert(line_end(s, j) <= d - 1) by {
                        if line_end(s, j) > d - 1 {
                            assert(s[d - 1] != 10);
                        }
                    }
                    lemma_is_delim_agree(s, r, j, f);
                }
                lemma_find_delim_line_from_props(r, 0, d);
                assert(line_end(r, d) == le_d);
                assert(next_line(r, d) == start);
                // the closing delimiter is found, shifted by the new line
                let cpos = g + (close - ef);
                assert(r.subrange(g, r.len() as int) =~= s.subrange(ef, s.len() as int));
                lemma_is_delim_shift(r, g, cpos);
                lemma_is_delim_shift(s, ef, close);
                assert(is_delim_at(r, cpos));
                assert(r[cpos - 1] == s[close - 1]);
                assert(is_line_start(r, cpos));
                assert forall|j: int| start <= j < cpos && is_line_start(r, j) implies !is_delim_at(
                    r,
                    j,
                ) by {
                    if j < f {
                        assert(r[j - 1] == s[j - 1]);
                        assert(is_line_start(s, j));
                        lemma_line_end_props(s, j);
                        assert(s[f - 1] == 10);
                        assert(line_end(s, j) <= f - 1) by {
                            if line_end(s, j) > f - 1 {
                                assert(s[f - 1] != 10);
                            }
                        }
                        lemma_is_delim_agree(s, r, j, f);
                    } else if j == f {
                    } else if j <= g {
                        assert(r[j - 1] == fl[j - 1 - f]);
                        assert(r[j - 1] != 10);
                        assert(false);
                    } else {
                        let jj = j - g + ef;
                        assert(r[j - 1] == s[jj - 1]);
                        assert(is_line_start(s, jj));
                        lemma_is_delim_shift(r, g, j);
                        lemma_is_delim_shift(s, ef, jj);
                        assert(is_delim_at(r, j) == is_delim_at(s, jj));
                        assert(start <= jj < close);
                    }
                }
                lemma_find_delim_line_from_props(r, start, cpos);
                assert(cpos < r.len());
                // the key line is found where it was
                assert forall|j: int|
                    start <= j < f && is_line_start(r, j) implies !line_has_key(r, j, key) by {
                    assert(r[j - 1] == s[j - 1]);
                    assert(is_line_start(s, j));
                    lemma_line_end_props(s, j);
                    assert(s[f - 1] == 10);
                    assert(line_end(s, j) <= f - 1) by {
                        if line_end(s, j) > f - 1 {
                            assert(s[f - 1] != 10);
                        }
                    }
                    lemma_line_has_key_agree(s, r, j, f, key);
                }
                lemma_find_field_line_from_props(r, start, cpos, key, f);
                assert(spec_update_field(r, key, value) == r.subrange(0, f) + fl + r.subrange(
                    g,
                    r.len() as int,
                ));
                assert(spec_update_field(r, key, value) =~= r);
            } else {
                // the key was inserted before the closing delimiter
                assert(f == close);
                let r = s.subrange(0, close) + fl + seq![10u8] + s.subrange(
                    close,
                    s.len() as int,
                );
                assert(spec_update_field(s, key, value) == r);
                let g = close + nf;
                let c2 = g + 1;
                assert(r.len() == c2 + s.len() - close);
                assert(forall|k: int| 0 <= k < close ==> r[k] == s[k]);
                assert(forall|t: int| 0 <= t < nf ==> r[close + t] == fl[t]);
                assert(r[g] == 10);
                assert forall|u: int| 0 <= u < s.len() - close implies #[trigger] r[c2 + u]
                    == s[close + u] by {}
                assert(is_line_start(r, close));
                assert forall|k: int| 0 <= k < key.len() implies r[close + k] == key[k] by {
                    assert(r[close + k] == fl[k]);
                }
                assert(r[close + key.len()] == fl[key.len() as int]);
                assert(r[close + key.len() + 1] == fl[key.len() as int + 1]);
                assert forall|k: int| 0 <= k < value.len() implies r[close + key.len() + 2 + k]
                    == value[k] by {
                    assert(r[close + key.len() + 2 + k] == fl[key.len() as int + 2 + k]);
                }
                lemma_field_line_here(r, close, key, value);
                assert(line_end(r, close) == g);
                // the opening delimiter is found where it was
                assert(d < start);
                assert(le_d < close);
                lemma_is_delim_agree(s, r, d, close);
                assert forall|j: int| 0 <= j < d && is_line_start(r, j) implies !is_delim_at(
                    r,
                    j,
                ) by {
                    assert(is_line_start(s, j));
                    lemma_line_end_props(s, j);
                    assert(s[d - 1] == 10);
                    assert(line_end(s, j) <= d - 1) by {
                        if line_end(s, j) > d - 1 {
                            assert(s[d - 1] != 10);
                        }
                    }
                    lemma_is_delim_agree(s, r, j, close);
                }
                lemma_find_delim_line_from_props(r, 0, d);
                assert(line_end(r, d) == le_d);
                assert(next_line(r, d) == start);
                // the closing delimiter is found just past the inserted line
                assert(r.subrange(c2, r.len() as int) =~= s.subrange(close, s.len() as int));
                lemma_is_delim_shift(r, c2, c2);
                lemma_is_delim_shift(s, close, close);
                assert(is_delim_at(r, c2));
                assert(is_line_start(r, c2));
                assert forall|j: int| start <= j < c2 && is_line_start(r, j) implies !is_delim_at(
                    r,
                    j,
                ) by {
                    if j < close {
                        assert(r[j - 1] == s[j - 1]);
                        assert(is_line_start(s, j));
                        lemma_line_end_props(s, j);
                        assert(s[close - 1] == 10);
                        assert(line_end(s, j) <= close - 1) by {
                            if line_end(s, j) > close - 1 {
                                assert(s[close - 1] != 10);
                            }
                        }
                        lemma_is_delim_agree(s, r, j, close);
                    } else if j == close {
                    } else {
                        assert(r[j - 1] == fl[j - 1 - close]);
                        assert(r[j - 1] != 10);
                        assert(false);
                    }
                }
                lemma_find_delim_line_from_props(r, start, c2);
                assert(c2 < r.len());
                // the inserted line is now the first key line
                assert forall|j: int|
                    start <= j < close && is_line_start(r, j) implies !line_has_key(r, j, key) by {
                    assert(r[j - 1] == s[j - 1]);
                    assert(is_line_start(s, j));
                    lemma_line_end_props(s, j);
                    assert(s[close - 1] == 10);
                    assert(line_end(s, j) <= close - 1) by {
                        if line_end(s, j) > close - 1 {
                            assert(s[close - 1] != 10);
                        }
                    }
                    lemma_line_has_key_agree(s, r, j, close, key);
                }
                lemma_find_field_line_from_props(r, start, c2, key, close);
                assert(spec_update_field(r, key, value) == r.subrange(0, close) + fl + r.subrange(
                    g,
                    r.len() as int,
                ));
                assert(spec_update_field(r, key, value) =~= r);
            }
        }
    }
}

fn byte_is_ws(b: u8) -> (r: bool)
    ensures
        r == is_ws(b),
{
    b == 32 || b == 9 || b == 10 || b == 11 || b == 12 || b == 13
}

fn byte_is_cont(b: u8) -> (r: bool)
    ensures
        r == is_utf8_continuation(b),
{
    b >= 128 && b < 192
}

/// First newline position at or after `i`, or the end of the text.
fn find_line_end(v: &Vec<u8>, i: usize) -> (e: usize)
    requires
        i <= v.len(),
    ensures
        e as int == line_end(v@, i as int),
        i <= e <= v.len(),
        e < v.len() ==> v@[e as int] == 10,
{
    let mut j: usize = i;
    while j < v.len() && v[j] != 10
        invariant
            i <= j <= v.len(),
            forall|k: int| i <= k < j ==> v@[k] != 10,
        decreases v.len() - j,
    {
        j += 1;
    }
    proof {
        lemma_line_end_from_props(v@, i as int, j as int);
    }
    j
}

/// Start of the line after the one at `i`.
fn next_line_pos(v: &Vec<u8>, i: usize) -> (n: usize)
    requires
        i <= v.len(),
    ensures
        n as int == next_line(v@, i as int),
        i <= n <= v.len(),
        i < v.len() ==> i < n,
        n < v.len() ==> is_line_start(v@, n as int),
{
    let e = find_line_end(v, i);
    proof {
        lemma_next_line_props(v@, i as int);
    }
    if e < v.len() {
        e + 1
    } else {
        v.len()
    }
}

/// Bounds of `[lo, hi)` with surrounding whitespace skipped.
fn trim_bounds(v: &Vec<u8>, lo: usize, hi: usize) -> (r: (usize, usize))
    requires
        lo <= hi <= v.len(),
    ensures
        r.0 as int == skip_ws_fwd(v@, lo as int, hi as int),
        r.1 as int == skip_ws_back(v@, r.0 as int, hi as int),
        lo <= r.0 <= r.1 <= hi,
        trimmed(v@, lo as int, hi as int) == v@.subrange(r.0 as int, r.1 as int),
{
    let mut a: usize = lo;
    while a < hi && byte_is_ws(v[a])
        invariant
            lo <= a <= hi <= v.len(),
            forall|k: int| lo <= k < a ==> is_ws(v@[k]),
        decreases hi - a,
    {
        a += 1;
    }
    proof {
        lemma_skip_ws_fwd_from_props(v@, lo as int, hi as int, a as int);
    }
    let mut b: usize = hi;
    while b > a && byte_is_ws(v[b - 1])
        invariant
            a <= b <= hi <= v.len(),
            forall|k: int| b <= k < hi ==> is_ws(v@[k]),
        decreases b,
    {
        b -= 1;
    }
    proof {
        lemma_skip_ws_back_from_props(v@, a as int, hi as int, b as int);
    }
    (a, b)
}

/// Whether the line at `i` is a delimiter line.
fn line_is_delim(v: &Vec<u8>, i: usize) -> (r: bool)
    requires
        i <= v.len(),
    ensures
        r == is_delim_at(v@, i as int),
{
    let e = find_line_end(v, i);
    let (a, b) = trim_bounds(v, i, e);
    if b - a == 3 && v[a] == 45 && v[a + 1] == 45 && v[a + 2] == 45 {
        proof {
            assert(v@.subrange(a as int, b as int) =~= delim_bytes());
        }
        true
    } else {
        proof {
            let tr = trimmed(v@, i as int, line_end(v@, i as int));
            if tr == delim_bytes() {
                assert(tr.len() == 3);
                assert(tr[0] == 45 && tr[1] == 45 && tr[2] == 45);
                assert(v@[a as int] == 45 && v@[a as int + 1] == 45 && v@[a as int + 2] == 45);
            }
        }
        false
    }
}

/// Whether the line at `i` is a `key:` line.
fn line_key_match(v: &Vec<u8>, i: usize, key: &Vec<u8>) -> (r: bool)
    requires
        i <= v.len(),
    ensures
        r == line_has_key(v@, i as int, key@),
{
    let e = find_line_end(v, i);
    if e - i <= key.len() {
        return false;
    }
    let mut k: usize = 0;
    while k < key.len()
        invariant
            0 <= k <= key.len(),
            i + key.len() < e <= v.len(),
            e as int == line_end(v@, i as int),
            forall|t: int| 0 <= t < k ==> v@[i + t] == key@[t],
        decreases key.len() - k,
    {
        if v[i + k] != key[k] {
            proof {
                let w = v@.subrange(i as int, i + key@.len() + 1);
                if w == key@.push(58) {
                    assert(w[k as int] == key@[k as int]);
                }
            }
            return false;
        }
        k += 1;
    }
    if v[i + key.len()] != 58 {
        proof {
            let w = v@.subrange(i as int, i + key@.len() + 1);
            if w == key@.push(58) {
                assert(w[key@.len() as int] == 58);
            }
        }
        return false;
    }
    proof {
        assert(v@.subrange(i as int, i + key@.len() + 1) =~= key@.push(58));
    }
    true
}

/// Start of the first delimiter line at or after `i`.
fn find_delim_from(v: &Vec<u8>, i: usize) -> (r: usize)
    requires
        i <= v.len(),
    ensures
        r as int == find_delim_line(v@, i as int),
        i <= r <= v.len(),
{
    proof {
        lemma_find_delim_line_props(v@, i as int);
    }
    let mut cur: usize = i;
    while cur < v.len()
        invariant
            i <= cur <= v.len(),
            find_delim_line(v@, i as int) == find_delim_line(v@, cur as int),
        decreases v.len() - cur,
    {
        if line_is_delim(v, cur) {
            proof {
                assert(find_delim_line(v@, cur as int) == cur as int);
                lemma_find_delim_line_props(v@, i as int);
            }
            return cur;
        }
        let n = next_line_pos(v, cur);
        proof {
            assert(find_delim_line(v@, cur as int) == find_delim_line(v@, n as int));
        }
        cur = n;
    }
    cur
}

/// Start of the first `key:` line in `[i, close)`, or `close`.
fn find_field_from(v: &Vec<u8>, i: usize, close: usize, key: &Vec<u8>) -> (r: usize)
    requires
        i <= v.len(),
        close <= v.len(),
    ensures
        r as int == find_field_line(v@, i as int, close as int, key@),
        r <= close,
{
    proof {
        lemma_find_field_line_props(v@, i as int, close as int, key@);
    }
    let mut cur: usize = i;
    while cur < close
        invariant
            i <= cur <= v.len(),
            close <= v.len(),
            find_field_line(v@, i as int, close as int, key@) == find_field_line(
                v@,
                cur as int,
                close as int,
                key@,
            ),
        decreases v.len() - cur,
    {
        if line_key_match(v, cur, key) {
            proof {
                assert(find_field_line(v@, cur as int, close as int, key@) == cur as int);
            }
            return cur;
        }
        let n = next_line_pos(v, cur);
        proof {
            assert(find_field_line(v@, cur as int, close as int, key@) == find_field_line(
                v@,
                n as int,
                close as int,
                key@,
            ));
        }
        cur = n;
    }
    proof {
        assert(find_field_line(v@, cur as int, close as int, key@) == close as int);
    }
    close
}

/// Copy of the bytes in `[a, b)`.
fn copy_range(v: &Vec<u8>, a: usize, b: usize) -> (r: Vec<u8>)
    requires
        a <= b <= v.len(),
    ensures
        r@ == v@.subrange(a as int, b as int),
{
    let mut r: Vec<u8> = Vec::new();
    proof {
        assert(r@ =~= v@.subrange(a as int, a as int));
    }
    let mut k: usize = a;
    while k < b
        invariant
            a <= k <= b <= v.len(),
            r@ == v@.subrange(a as int, k as int),
        decreases b - k,
    {
        r.push(v[k]);
        proof {
            assert(r@ =~= v@.subrange(a as int, k as int + 1));
        }
        k += 1;
    }
    r
}

/// Append a copy of `src` to `dst`.
fn append_bytes(dst: &mut Vec<u8>, src: &Vec<u8>)
    ensures
        final(dst)@ == old(dst)@ + src@,
{
    let ghost base = dst@;
    proof {
        assert(dst@ =~= base + src@.subrange(0, 0));
    }
    let mut k: usize = 0;
    while k < src.len()
        invariant
            k <= src.len(),
            dst@ == base + src@.subrange(0, k as int),
        decreases src.len() - k,
    {
        dst.push(src[k]);
        proof {
            assert(dst@ =~= base + src@.subrange(0, k as int + 1));
        }
        k += 1;
    }
    proof {
        assert(base + src@.subrange(0, src@.len() as int) =~= base + src@);
    }
}

/// The bytes of the `id` key.
fn key_id_vec() -> (r: Vec<u8>)
    ensures
        r@ == key_id(),
{
    let mut v: Vec<u8> = Vec::new();
    v.push('i' as u8);
    v.push('d' as u8);
    proof {
        assert(v@ =~= key_id());
    }
    v
}

/// The bytes of the `createdAt` key.
fn key_created_at_vec() -> (r: Vec<u8>)
    ensures
        r@ == key_created_at(),
{
    let mut v: Vec<u8> = Vec::new();
    v.push('c' as u8);
    v.push('r' as u8);
    v.push('e' as u8);
    v.push('a' as u8);
    v.push('t' as u8);
    v.push('e' as u8);
    v.push('d' as u8);
    v.push('A' as u8);
    v.push('t' as u8);
    proof {
        assert(v@ =~= key_created_at());
    }
    v
}

/// If a well-formed header block starts at `p`, the position just past it.
fn block_end_at(v: &Vec<u8>, p: usize) -> (r: Option<usize>)
    requires
        p <= v.len(),
    ensures
        match r {
            Some(e) => header_block_end_at(v@, p as int) == Some(e as int) && p < e <= v.len() && (
            e == v.len() || is_line_start(v@, e as int)),
            None => header_block_end_at(v@, p as int).is_none(),
        },
{
    if p >= v.len() {
        return None;
    }
    if !line_is_delim(v, p) {
        return None;
    }
    let inner = next_line_pos(v, p);
    let close = find_delim_from(v, inner);
    if close >= v.len() {
        return None;
    }
    let kid = key_id_vec();
    let f1 = find_field_from(v, inner, close, &kid);
    if f1 >= close {
        return None;
    }
    let kca = key_created_at_vec();
    let f2 = find_field_from(v, inner, close, &kca);
    if f2 >= close {
        return None;
    }
    let e = next_line_pos(v, close);
    proof {
        lemma_next_line_props(v@, close as int);
    }
    Some(e)
}

/// The body of the content: everything after the leading well-formed header
/// blocks. Blocks that are malformed, or that lack the `id` or `createdAt`
/// field, stay in place as body text.
pub fn extract_content_only(content: &Vec<u8>) -> (r: Vec<u8>)
    ensures
        r@ == spec_extract_body(content@),
{
    let ghost s = content@;
    let mut p: usize = 0;
    let mut done = false;
    proof {
        assert(s.subrange(0, s.len() as int) =~= s);
    }
    while !done
        invariant
            p <= content.len(),
            s == content@,
            is_line_start(s, p as int) || p as int == s.len(),
            spec_extract_body(s) == spec_extract_body(s.subrange(p as int, s.len() as int)),
            done ==> header_block_end_at(s, p as int).is_none(),
        decreases content.len() - p, (if done {
            0int
        } else {
            1int
        }),
    {
        match block_end_at(content, p) {
            Some(q) => {
                proof {
                    lemma_header_block_end_shift(s, p as int);
                    let t = s.subrange(p as int, s.len() as int);
                    assert(header_block_end(t) == Some(q - p));
                    assert(spec_extract_body(t) == spec_extract_body(
                        t.subrange(q - p, t.len() as int),
                    ));
                    assert(t.subrange(q - p, t.len() as int) =~= s.subrange(
                        q as int,
                        s.len() as int,
                    ));
                }
                p = q;
            },
            None => {
                done = true;
            },
        }
    }
    proof {
        lemma_header_block_end_shift(s, p as int);
        let t = s.subrange(p as int, s.len() as int);
        assert(spec_extract_body(t) == t);
    }
    copy_range(content, p, content.len())
}

/// The value of `key` in the first delimited block of the content, if any.
pub fn parse_field(content: &Vec<u8>, key: &Vec<u8>) -> (r: Option<Vec<u8>>)
    ensures
        r.deep_view() == spec_parse_field(content@, key@),
{
    let d = find_delim_from(content, 0);
    if d >= content.len() {
        return None;
    }
    let start = next_line_pos(content, d);
    let close = find_delim_from(content, start);
    let f = find_field_from(content, start, close, key);
    if f < close {
        proof {
            lemma_find_field_line_props(content@, start as int, close as int, key@);
        }
        let e = find_line_end(content, f);
        let (a, b) = trim_bounds(content, f + key.len() + 1, e);
        let val = copy_range(content, a, b);
        proof {
            assert(val@ == field_value_at(content@, f as int, key@));
        }
        Some(val)
    } else {
        None
    }
}

/// The embedded note id, if the content carries one.
pub fn parse_id_from_content(content: &Vec<u8>) -> (r: Option<Vec<u8>>)
    ensures
        r.deep_view() == spec_parse_field(content@, key_id()),
{
    let key = key_id_vec();
    parse_field(content, &key)
}

/// The embedded creation timestamp, if the content carries one.
pub fn extract_created_at_from_content(content: &Vec<u8>) -> (r: Option<Vec<u8>>)
    ensures
        r.deep_view() == spec_parse_field(content@, key_created_at()),
{
    let key = key_created_at_vec();
    parse_field(content, &key)
}

/// The canonical content of a note file: one header block holding `id` and
/// `createdAt`, followed by the body. Any header the body itself carried is
/// not inspected; the caller passes the bare body.
pub fn build_full_content(id: &Vec<u8>, created_at: &Vec<u8>, content: &Vec<u8>) -> (r: Vec<u8>)
    ensures
        r@ == spec_build_content(id@, created_at@, content@),
{
    let mut r: Vec<u8> = Vec::new();
    r.push('-' as u8);
    r.push('-' as u8);
    r.push('-' as u8);
    r.push(10);
    r.push('i' as u8);
    r.push('d' as u8);
    r.push(58);
    r.push(32);
    proof {
        assert(r@ =~= header_open());
    }
    append_bytes(&mut r, id);
    let ghost with_id = r@;
    r.push(10);
    r.push('c' as u8);
    r.push('r' as u8);
    r.push('e' as u8);
    r.push('a' as u8);
    r.push('t' as u8);
    r.push('e' as u8);
    r.push('d' as u8);
    r.push('A' as u8);
    r.push('t' as u8);
    r.push(58);
    r.push(32);
    proof {
        assert(r@ =~= with_id + header_middle());
    }
    append_bytes(&mut r, created_at);
    let ghost with_created = r@;
    r.push(10);
    r.push('-' as u8);
    r.push('-' as u8);
    r.push('-' as u8);
    r.push(10);
    proof {
        assert(r@ =~= with_created + header_close());
    }
    append_bytes(&mut r, content);
    proof {
        assert(r@ =~= spec_build_content(id@, created_at@, content@));
    }
    r
}

/// A synthesized one-field block followed by the untouched content.
fn synth_with_block(content: &Vec<u8>, key: &Vec<u8>, value: &Vec<u8>) -> (r: Vec<u8>)
    ensures
        r@ == synth_block(key@, value@) + content@,
{
    let mut r: Vec<u8> = Vec::new();
    r.push('-' as u8);
    r.push('-' as u8);
    r.push('-' as u8);
    r.push(10);
    let ghost opened = r@;
    append_bytes(&mut r, key);
    r.push(58);
    r.push(32);
    append_bytes(&mut r, value);
    let ghost with_field = r@;
    proof {
        assert(with_field =~= opened + field_line(key@, value@));
    }
    r.push(10);
    r.push('-' as u8);
    r.push('-' as u8);
    r.push('-' as u8);
    r.push(10);
    proof {
        assert(r@ =~= synth_block(key@, value@));
    }
    append_bytes(&mut r, content);
    proof {
        assert(r@ =~= synth_block(key@, value@) + content@);
    }
    r
}

/// Update `key` in the content's first delimited block: replace its first
/// `key:` line, or insert one before the closing delimiter, or synthesize a
/// fresh block holding exactly this field when no block exists.
pub fn update_field(content: &Vec<u8>, key: &Vec<u8>, value: &Vec<u8>) -> (r: Vec<u8>)
    ensures
        r@ == spec_update_field(content@, key@, value@),
{
    let d = find_delim_from(content, 0);
    if d >= content.len() {
        return synth_with_block(content, key, value);
    }
    let start = next_line_pos(content, d);
    let close = find_delim_from(content, start);
    if close >= content.len() {
        return synth_with_block(content, key, value);
    }
    let f = find_field_from(content, start, close, key);
    if f < close {
        proof {
            lemma_find_field_line_props(content@, start as int, close as int, key@);
            lemma_line_end_props(content@, f as int);
        }
        let e = find_line_end(content, f);
        let mut r = copy_range(content, 0, f);
        append_bytes(&mut r, key);
        r.push(58);
        r.push(32);
        append_bytes(&mut r, value);
        let tail = copy_range(content, e, content.len());
        append_bytes(&mut r, &tail);
        proof {
            assert(r@ =~= content@.subrange(0, f as int) + field_line(key@, value@)
                + content@.subrange(line_end(content@, f as int), content@.len() as int));
        }
        r
    } else {
        let mut r = copy_range(content, 0, close);
        append_bytes(&mut r, key);
        r.push(58);
        r.push(32);
        append_bytes(&mut r, value);
        r.push(10);
        let tail = copy_range(content, close, content.len());
        append_bytes(&mut r, &tail);
        proof {
            assert(r@ =~= content@.subrange(0, close as int) + field_line(key@, value@)
                + seq![10u8] + content@.subrange(close as int, content@.len() as int));
        }
        r
    }
}

/// The first line of the content that is nonempty once trimmed, trimmed and
/// capped at its first `PREVIEW_LEN` characters (the cap never splits a
/// multi-byte character).
pub fn extract_first_line_preview(content: &Vec<u8>) -> (r: Option<Vec<u8>>)
    ensures
        r.deep_view() == spec_first_line_preview(content@, 0),
{
    let mut i: usize = 0;
    while i < content.len()
        invariant
            i <= content.len(),
            spec_first_line_preview(content@, 0) == spec_first_line_preview(content@, i as int),
        decreases content.len() - i,
    {
        let e = find_line_end(content, i);
        let (a, b) = trim_bounds(content, i, e);
        if b > a {
            let ghost t = trimmed(content@, i as int, line_end(content@, i as int));
            proof {
                lemma_char_cut_range(t, 0, PREVIEW_LEN as int);
            }
            let mut j: usize = a;
            let mut n: usize = PREVIEW_LEN;
            while j < b && (byte_is_cont(content[j]) || n > 0)
                invariant
                    a <= j <= b <= content.len(),
                    n <= PREVIEW_LEN,
                    t == content@.subrange(a as int, b as int),
                    char_cut(t, 0, PREVIEW_LEN as int) == char_cut(t, j - a, n as int),
                decreases b - j,
            {
                proof {
                    assert(t[j - a] == content@[j as int]);
                }
                if !byte_is_cont(content[j]) {
                    n -= 1;
                }
                j += 1;
            }
            proof {
                assert(char_cut(t, 0, PREVIEW_LEN as int) == j - a);
            }
            let val = copy_range(content, a, j);
            proof {
                assert(val@ =~= t.subrange(0, j - a));
            }
            return Some(val);
        }
        let n = next_line_pos(content, i);
        proof {
            assert(spec_first_line_preview(content@, i as int) == spec_first_line_preview(
                content@,
                n as int,
            ));
        }
        i = n;
    }
    None
}

} // verus!

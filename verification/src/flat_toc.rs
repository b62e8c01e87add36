//! Tables of contents that the book wrote as one run of text
//! ("Contents 1 Intro 1.1 Overview 2 Setup"), turned into Markdown lists.
use vstd::prelude::*;
use vstd::utf8::{encode_utf8, decode_utf8, is_char_boundary, is_continuation_byte, valid_utf8};
use crate::text::{
    chars_of, string_of, append_chars, trim, trim_chars, to_lowercase, lowercase, lines_of, spec_lines,
    join_with, join_seq, str_eq, strings_view,
};
use crate::regex_calls::{
    regex_first_captures, regex_captures, regex_replaced_first, regex_replace_first,
    regex_replaced_all, regex_replace_all, groups_view, all_groups_view,
    regex_match_pieces, regex_pieces,
};
use crate::toc::{group_text, group_present};
use crate::fences::{spec_replace, replace_chars};
use crate::paths::split_on;

verus! {

broadcast use vstd::string::group_string_axioms, vstd::utf8::group_utf8_lib;

pub open spec fn paragraph_pattern() -> Seq<char> {
    r"(?is)^<p(?:\s[^>]*)?>(.*)</p>$"@
}

/// The text of a `<p>...</p>` paragraph, or the trimmed text itself.
pub open spec fn spec_unwrap_paragraph(value: Seq<char>) -> Seq<char> {
    let t = trim(value);
    match regex_first_captures(paragraph_pattern(), t) {
        Some(g) => if group_present(g, 1) { trim(group_text(g, 1)) } else { t },
        None => t,
    }
}

pub fn unwrap_toc_paragraph(value: &str) -> (r: String)
    ensures
        r@ == spec_unwrap_paragraph(value@),
{
    let t = string_of(&trim_chars(&chars_of(value)));
    match regex_captures(r"(?is)^<p(?:\s[^>]*)?>(.*)</p>$", t.as_str()) {
        Some(groups) => {
            if 1 < groups.len() {
                match &groups[1] {
                    Some(g) => string_of(&trim_chars(&chars_of(g.as_str()))),
                    None => t,
                }
            } else {
                t
            }
        },
        None => t,
    }
}

pub open spec fn is_ascii_digit(b: u8) -> bool {
    48 <= b <= 57
}

/// `u8::is_ascii_whitespace`: space, tab, line feed, form feed and
/// carriage return.
pub open spec fn is_ascii_ws(b: u8) -> bool {
    b == 32 || b == 9 || b == 10 || b == 12 || b == 13
}

/// The end of the run of ASCII digits that starts at `i`.
pub open spec fn digits_end(bytes: Seq<u8>, i: int) -> int
    decreases bytes.len() - i,
{
    if 0 <= i < bytes.len() && is_ascii_digit(bytes[i]) {
        digits_end(bytes, i + 1)
    } else {
        i
    }
}

/// After a number, the end of its `.digits` groups, or `None` when a `.`
/// is not followed by a digit.
pub open spec fn groups_end(bytes: Seq<u8>, i: int) -> Option<int>
    decreases bytes.len() - i,
{
    if 0 <= i < bytes.len() && bytes[i] == 46 {
        let j = digits_end(bytes, i + 1);
        if j == i + 1 {
            None
        } else {
            proof { lemma_digits_end(bytes, i + 1); }
            groups_end(bytes, j)
        }
    } else {
        Some(i)
    }
}

/// Whether an entry number such as `1`, `2.3` or `4.5.6` starts at byte
/// `index`, after whitespace (or at the start) and before whitespace.
pub open spec fn spec_marker_at(bytes: Seq<u8>, index: int) -> bool {
    if index > 0 && !is_ascii_ws(bytes[index - 1]) {
        false
    } else {
        let c = digits_end(bytes, index);
        if c == index {
            false
        } else {
            match groups_end(bytes, c) {
                Some(e) => e < bytes.len() && is_ascii_ws(bytes[e]),
                None => false,
            }
        }
    }
}

pub proof fn lemma_digits_end(bytes: Seq<u8>, i: int)
    requires
        0 <= i,
    ensures
        i <= digits_end(bytes, i),
        i <= bytes.len() ==> digits_end(bytes, i) <= bytes.len(),
    decreases bytes.len() - i,
{
    if 0 <= i < bytes.len() && is_ascii_digit(bytes[i]) {
        lemma_digits_end(bytes, i + 1);
    }
}

proof fn lemma_groups_end(bytes: Seq<u8>, i: int)
    requires
        0 <= i <= bytes.len(),
    ensures
        groups_end(bytes, i) matches Some(e) ==> i <= e <= bytes.len(),
    decreases bytes.len() - i,
{
    if 0 <= i < bytes.len() && bytes[i] == 46 {
        lemma_digits_end(bytes, i + 1);
        let j = digits_end(bytes, i + 1);
        if j != i + 1 {
            lemma_groups_end(bytes, j);
        }
    }
}

fn skip_digits(bytes: &[u8], from: usize) -> (r: usize)
    requires
        from <= bytes@.len(),
    ensures
        r as int == digits_end(bytes@, from as int),
        from <= r <= bytes@.len(),
{
    let mut i = from;
    while i < bytes.len() && 48 <= bytes[i] && bytes[i] <= 57
        invariant
            from <= i <= bytes@.len(),
            digits_end(bytes@, i as int) == digits_end(bytes@, from as int),
        decreases bytes@.len() - i,
    {
        i += 1;
    }
    i
}

/// Whether an entry number starts at byte `index` of `body`.
pub fn is_flat_toc_marker_at(body: &str, index: usize) -> (r: bool)
    requires
        index <= encode_utf8(body@).len(),
    ensures
        r == spec_marker_at(encode_utf8(body@), index as int),
{
    let bytes = body.as_bytes();
    assert(bytes@ == encode_utf8(body@));
    if index > 0 && is_ascii_ws_byte(bytes[index - 1]) == false {
        return false;
    }
    let cursor = skip_digits(bytes, index);
    if cursor == index {
        return false;
    }
    let mut cursor = cursor;
    proof { lemma_groups_end(bytes@, cursor as int); }
    while cursor < bytes.len() && bytes[cursor] == 46
        invariant
            index < cursor <= bytes@.len(),
            bytes@ == encode_utf8(body@),
            groups_end(bytes@, cursor as int) == groups_end(bytes@, digits_end(bytes@, index as int)),
        decreases bytes@.len() - cursor,
    {
        let start = cursor + 1;
        let next = skip_digits(bytes, start);
        if next == start {
            return false;
        }
        cursor = next;
    }
    cursor < bytes.len() && is_ascii_ws_byte(bytes[cursor])
}

fn is_ascii_ws_byte(b: u8) -> (r: bool)
    ensures
        r == is_ascii_ws(b),
{
    b == 32 || b == 9 || b == 10 || b == 12 || b == 13
}

/// The byte positions, in order, at which an entry number starts.
pub open spec fn marker_positions(bytes: Seq<u8>, n: int) -> Seq<int>
    decreases n,
{
    if n <= 0 {
        Seq::<int>::empty()
    } else {
        let p = marker_positions(bytes, n - 1);
        if is_ascii_digit(bytes[n - 1]) && spec_marker_at(bytes, n - 1) { p.push(n - 1) } else { p }
    }
}

pub open spec fn spec_marker_starts(body: Seq<char>) -> Seq<int> {
    marker_positions(encode_utf8(body), encode_utf8(body).len() as int)
}

proof fn lemma_marker_positions(bytes: Seq<u8>, n: int)
    requires
        0 <= n <= bytes.len(),
    ensures
        forall|k: int| 0 <= k < marker_positions(bytes, n).len() ==> 0 <= #[trigger] marker_positions(bytes, n)[k] < n
            && is_ascii_digit(bytes[marker_positions(bytes, n)[k]]),
        forall|a: int, b: int| 0 <= a < b < marker_positions(bytes, n).len()
            ==> #[trigger] marker_positions(bytes, n)[a] < #[trigger] marker_positions(bytes, n)[b],
    decreases n,
{
    if n > 0 {
        lemma_marker_positions(bytes, n - 1);
        let p = marker_positions(bytes, n - 1);
        let q = marker_positions(bytes, n);
        if is_ascii_digit(bytes[n - 1]) && spec_marker_at(bytes, n - 1) {
            assert(q == p.push(n - 1));
            assert forall|k: int| 0 <= k < q.len() implies 0 <= #[trigger] q[k] < n && is_ascii_digit(bytes[q[k]]) by {
                if k < p.len() {
                    assert(q[k] == p[k]);
                }
            }
            assert forall|a: int, b: int| 0 <= a < b < q.len() implies #[trigger] q[a] < #[trigger] q[b] by {
                assert(q[a] == p[a]);
                if b < p.len() {
                    assert(q[b] == p[b]);
                }
            }
        }
    }
}

/// The byte positions at which entry numbers start: ASCII digits for
/// which `is_flat_toc_marker_at` holds (an ASCII byte of a `str` always
/// starts a character).
pub fn flat_toc_marker_starts(body: &str) -> (r: Vec<usize>)
    ensures
        r@.map_values(|i: usize| i as int) == spec_marker_starts(body@),
{
    let bytes = body.as_bytes();
    let mut r: Vec<usize> = Vec::new();
    let mut i: usize = 0;
    while i < bytes.len()
        invariant
            i <= bytes@.len(),
            bytes@ == encode_utf8(body@),
            r@.map_values(|x: usize| x as int) == marker_positions(bytes@, i as int),
        decreases bytes@.len() - i,
    {
        if 48 <= bytes[i] && bytes[i] <= 57 && is_flat_toc_marker_at(body, i) {
            let ghost before = r@.map_values(|x: usize| x as int);
            r.push(i);
            assert(r@.map_values(|x: usize| x as int) =~= before.push(i as int));
        }
        i += 1;
    }
    r
}

/// The non-empty entries, in order.
pub open spec fn non_empty(v: Seq<Seq<char>>) -> Seq<Seq<char>>
    decreases v.len(),
{
    if v.len() == 0 {
        v
    } else if v.last().len() == 0 {
        non_empty(v.drop_last())
    } else {
        non_empty(v.drop_last()).push(v.last())
    }
}

/// The text of an entry: from its number to the next number (or the
/// end), trimmed.
pub open spec fn entry_text(bytes: Seq<u8>, m: Seq<int>, k: int) -> Seq<char> {
    let end = if k + 1 < m.len() { m[k + 1] } else { bytes.len() as int };
    trim(decode_utf8(bytes.subrange(m[k], end)))
}

pub open spec fn entries_upto(bytes: Seq<u8>, m: Seq<int>, n: int) -> Seq<Seq<char>>
    decreases n,
{
    if n <= 0 {
        Seq::<Seq<char>>::empty()
    } else {
        let prev = entries_upto(bytes, m, n - 1);
        let e = entry_text(bytes, m, n - 1);
        if e.len() == 0 { prev } else { prev.push(e) }
    }
}

pub open spec fn nbsp_normalized(body: Seq<char>) -> Seq<char> {
    spec_replace(spec_unwrap_paragraph(body), "&nbsp;"@, " "@)
}

/// The entries of a flat table of contents, cut at their numbers; none
/// when there are fewer than three numbers.
pub open spec fn spec_split_flat_toc_entries(body: Seq<char>) -> Seq<Seq<char>> {
    let normalized = nbsp_normalized(body);
    let bytes = encode_utf8(normalized);
    let m = marker_positions(bytes, bytes.len() as int);
    if m.len() < 3 { Seq::<Seq<char>>::empty() } else { entries_upto(bytes, m, m.len() as int) }
}

proof fn lemma_boundary(bytes: Seq<u8>, i: int)
    requires
        valid_utf8(bytes),
        0 <= i <= bytes.len(),
        i < bytes.len() ==> !is_continuation_byte(bytes[i]),
    ensures
        is_char_boundary(bytes, i),
{
    if i < bytes.len() {
        vstd::utf8::is_char_boundary_iff_not_is_continuation_byte(bytes, i);
    } else {
        vstd::utf8::is_char_boundary_start_end_of_seq(bytes);
    }
}

/// The characters whose UTF-8 encoding is `s`'s bytes `start..end`.
fn byte_range(s: &str, start: usize, end: usize) -> (r: String)
    requires
        start <= end <= encode_utf8(s@).len(),
        start < encode_utf8(s@).len() ==> !is_continuation_byte(encode_utf8(s@)[start as int]),
        end < encode_utf8(s@).len() ==> !is_continuation_byte(encode_utf8(s@)[end as int]),
    ensures
        r@ == decode_utf8(encode_utf8(s@).subrange(start as int, end as int)),
{
    let ghost bytes = encode_utf8(s@);
    proof {
        lemma_boundary(bytes, start as int);
        vstd::utf8::valid_utf8_split(bytes, start as int);
    }
    let (_, tail) = s.split_at(start);
    let ghost tb = bytes.subrange(start as int, bytes.len() as int);
    assert(encode_utf8(tail@) =~= tb);
    proof {
        assert(encode_utf8(tail@) == tb);
        if end < bytes.len() {
            assert(tb[end - start] == bytes[end as int]);
        }
        lemma_boundary(tb, end - start);
    }
    let (piece, _) = tail.split_at(end - start);
    assert(encode_utf8(piece@) =~= bytes.subrange(start as int, end as int));
    proof {
        vstd::utf8::encode_utf8_decode_utf8(piece@);
    }
    piece.to_owned()
}

/// The entries of a flat table of contents.
pub fn split_flat_toc_entries(body: &str) -> (r: Vec<String>)
    ensures
        strings_view(r@) == spec_split_flat_toc_entries(body@),
{
    let unwrapped = unwrap_toc_paragraph(body);
    let pat = chars_of("&nbsp;");
    let rep = chars_of(" ");
    proof {
        reveal_strlit("&nbsp;");
        reveal_strlit(" ");
    }
    let normalized = string_of(&replace_chars(&chars_of(unwrapped.as_str()), &pat, &rep));
    let markers = flat_toc_marker_starts(normalized.as_str());
    let ghost bytes = encode_utf8(normalized@);
    let ghost m = markers@.map_values(|i: usize| i as int);
    let mut r: Vec<String> = Vec::new();
    assert(strings_view(r@) =~= Seq::<Seq<char>>::empty());
    if markers.len() < 3 {
        return r;
    }
    let total = normalized.as_str().as_bytes().len();
    proof {
        lemma_marker_positions(bytes, bytes.len() as int);
    }
    let mut k: usize = 0;
    while k < markers.len()
        invariant
            k <= markers@.len(),
            m == markers@.map_values(|i: usize| i as int),
            m == marker_positions(bytes, bytes.len() as int),
            bytes == encode_utf8(normalized@),
            total == bytes.len(),
            forall|j: int| 0 <= j < m.len() ==> 0 <= #[trigger] m[j] < bytes.len() && is_ascii_digit(bytes[m[j]]),
            forall|a: int, b: int| 0 <= a < b < m.len() ==> #[trigger] m[a] < #[trigger] m[b],
            strings_view(r@) == entries_upto(bytes, m, k as int),
        decreases markers@.len() - k,
    {
        let start = markers[k];
        let end = if k + 1 < markers.len() { markers[k + 1] } else { total };
        assert(m[k as int] == start);
        if k + 1 < markers.len() {
            assert(m[k + 1] == end);
        }
        let piece = byte_range(normalized.as_str(), start, end);
        let entry = trim_chars(&chars_of(piece.as_str()));
        if entry.len() > 0 {
            let ghost before = strings_view(r@);
            r.push(string_of(&entry));
            assert(strings_view(r@) =~= before.push(entry@));
        }
        k += 1;
    }
    r
}

/// Whether a block is a `Contents` or `Table of Contents` heading (any
/// case, Markdown heading marks and tags aside).
pub open spec fn spec_is_toc_heading(block: Seq<char>) -> bool {
    let text = regex_replaced_first(r"^#{1,6}\s+"@, trim(block), ""@);
    let text = regex_replaced_all(r"<[^>]+>"@, text, ""@);
    let lower = lowercase(trim(text));
    lower == "contents"@ || lower == "table of contents"@
}

pub fn is_toc_heading_block(block: &str) -> (r: bool)
    ensures
        r == spec_is_toc_heading(block@),
{
    let t = string_of(&trim_chars(&chars_of(block)));
    let text = regex_replace_first(r"^#{1,6}\s+", t.as_str(), "");
    let text = regex_replace_all(r"<[^>]+>", text.as_str(), "");
    let lower = to_lowercase(string_of(&trim_chars(&chars_of(text.as_str()))).as_str());
    proof {
        reveal_strlit("");
    }
    str_eq(lower.as_str(), "contents") || str_eq(lower.as_str(), "table of contents")
}

/// A block whose first line is a contents heading and whose other lines
/// hold the entries: the heading line and the entries' text.
pub open spec fn spec_toc_heading_block_and_body(block: Seq<char>) -> Option<(Seq<char>, Seq<char>)> {
    let lines = spec_lines(block);
    if lines.len() == 0 {
        None
    } else {
        let first = trim(lines[0]);
        let body = join_seq(lines.drop_first(), seq!['\n']);
        if trim(body).len() == 0 || !spec_is_toc_heading(first) {
            None
        } else {
            Some((first, spec_unwrap_paragraph(body)))
        }
    }
}

pub open spec fn pair_view(o: Option<(String, String)>) -> Option<(Seq<char>, Seq<char>)> {
    match o {
        Some((a, b)) => Some((a@, b@)),
        None => None,
    }
}

pub fn toc_heading_block_and_body(block: &str) -> (r: Option<(String, String)>)
    ensures
        pair_view(r) == spec_toc_heading_block_and_body(block@),
{
    let lines = lines_of(&chars_of(block));
    let ghost lv = lines@.map_values(|v: Vec<char>| v@);
    if lines.len() == 0 {
        return None;
    }
    let first = string_of(&trim_chars(&lines[0]));
    let mut rest: Vec<Vec<char>> = Vec::new();
    let mut i: usize = 1;
    while i < lines.len()
        invariant
            1 <= i <= lines@.len(),
            lv == lines@.map_values(|v: Vec<char>| v@),
            rest@.map_values(|v: Vec<char>| v@) == lv.subrange(1, i as int),
        decreases lines@.len() - i,
    {
        let ghost before = rest@.map_values(|v: Vec<char>| v@);
        let line = crate::text::sub_chars(&lines[i], 0, lines[i].len());
        assert(line@ =~= lv[i as int]);
        rest.push(line);
        assert(rest@.map_values(|v: Vec<char>| v@) =~= before.push(lv[i as int]));
        assert(lv.subrange(1, i + 1) =~= lv.subrange(1, i as int).push(lv[i as int]));
        i += 1;
    }
    assert(lv.subrange(1, lines@.len() as int) =~= lv.drop_first());
    let sep = vec!['\n'];
    assert(sep@ =~= seq!['\n']);
    let body = join_with(&rest, &sep);
    if trim_chars(&body).len() == 0 || !is_toc_heading_block(first.as_str()) {
        return None;
    }
    Some((first, unwrap_toc_paragraph(string_of(&body).as_str())))
}

/// `block[n..]` when byte `n` starts a character of `block`.
pub open spec fn byte_skip(block: Seq<char>, n: int) -> Option<Seq<char>> {
    let bytes = encode_utf8(block);
    if 0 <= n <= bytes.len() && is_char_boundary(bytes, n) {
        Some(decode_utf8(bytes.subrange(n, bytes.len() as int)))
    } else {
        None
    }
}

pub open spec fn has_prefix(s: Seq<char>, p: Seq<char>) -> bool {
    p.len() <= s.len() && s.take(p.len() as int) == p
}

/// A one-paragraph contents block, "Contents 1 Intro 2 Setup ...": the
/// heading to give it and the text after the word.  A block that is only
/// the word is no such block.  Where the word's bytes in the block do not
/// end on a character boundary (which lower-casing does not produce) there
/// is no such block either.
pub open spec fn spec_flat_toc_heading_and_body(block: Seq<char>) -> Option<(Seq<char>, Seq<char>)> {
    let lower = lowercase(block);
    if lower == "contents"@ || lower == "table of contents"@ {
        None
    } else if has_prefix(lower, "table of contents "@) {
        match byte_skip(block, 17) {
            Some(rest) => Some(("Table of Contents"@, trim(rest))),
            None => None,
        }
    } else if has_prefix(lower, "contents "@) {
        match byte_skip(block, 8) {
            Some(rest) => Some(("Contents"@, trim(rest))),
            None => None,
        }
    } else {
        None
    }
}

fn skip_bytes(block: &str, n: usize) -> (r: Option<String>)
    ensures
        opt_string_view(r) == byte_skip(block@, n as int),
{
    if !block.is_char_boundary(n) {
        return None;
    }
    let (_, tail) = block.split_at(n);
    assert(encode_utf8(tail@) =~= encode_utf8(block@).subrange(n as int, encode_utf8(block@).len() as int));
    proof {
        vstd::utf8::encode_utf8_decode_utf8(tail@);
    }
    Some(tail.to_owned())
}

pub open spec fn opt_string_view(o: Option<String>) -> Option<Seq<char>> {
    match o {
        Some(s) => Some(s@),
        None => None,
    }
}

fn starts_with_str(v: &Vec<char>, p: &str) -> (r: bool)
    ensures
        r == has_prefix(v@, p@),
{
    crate::text::starts_with_chars(v, &chars_of(p))
}

pub fn flat_toc_heading_and_body(block: &str) -> (r: Option<(String, String)>)
    ensures
        pair_view(r) == spec_flat_toc_heading_and_body(block@),
{
    let lower = to_lowercase(block);
    let lv = chars_of(lower.as_str());
    if str_eq(lower.as_str(), "contents") || str_eq(lower.as_str(), "table of contents") {
        return None;
    }
    if starts_with_str(&lv, "table of contents ") {
        return match skip_bytes(block, 17) {
            Some(rest) => Some((string_of(&chars_of("Table of Contents")), string_of(&trim_chars(&chars_of(rest.as_str()))))),
            None => None,
        };
    }
    if starts_with_str(&lv, "contents ") {
        return match skip_bytes(block, 8) {
            Some(rest) => Some((string_of(&chars_of("Contents")), string_of(&trim_chars(&chars_of(rest.as_str()))))),
            None => None,
        };
    }
    None
}

pub open spec fn toc_link_pattern() -> Seq<char> {
    r#"\[((?:\s*<a\s+id="[^"]+"></a>)+\s*)([^\]]+?)\]\(([^)]+)\)"#@
}

/// `anchors [label](target)` for a link whose label starts with anchors.
pub open spec fn rewrite_toc_link(g: Seq<Option<Seq<char>>>) -> Seq<char> {
    trim(group_text(g, 1)) + " ["@ + trim(group_text(g, 2)) + "]("@ + trim(group_text(g, 3)) + ")"@
}

pub open spec fn piece_at(gaps: Seq<Seq<char>>, k: int) -> Seq<char> {
    if 0 <= k < gaps.len() { gaps[k] } else { Seq::<char>::empty() }
}

pub open spec fn rebuild(gaps: Seq<Seq<char>>, caps: Seq<Seq<Option<Seq<char>>>>, n: int) -> Seq<char>
    decreases n,
{
    if n <= 0 {
        piece_at(gaps, 0)
    } else {
        rebuild(gaps, caps, n - 1) + rewrite_toc_link(caps[n - 1]) + piece_at(gaps, n)
    }
}

/// The entry with anchors moved out of its link labels.
pub open spec fn spec_normalize_toc_entry(entry: Seq<char>) -> Seq<char> {
    let (gaps, caps) = regex_match_pieces(toc_link_pattern(), entry);
    rebuild(gaps, caps, caps.len() as int)
}

fn group_trimmed(g: &Vec<Option<String>>, k: usize) -> (r: Vec<char>)
    ensures
        r@ == trim(group_text(groups_view(g@), k as int)),
{
    if k < g.len() {
        match &g[k] {
            Some(s) => trim_chars(&chars_of(s.as_str())),
            None => {
                assert(trim(Seq::<char>::empty()) =~= Seq::<char>::empty());
                Vec::new()
            },
        }
    } else {
        assert(trim(Seq::<char>::empty()) =~= Seq::<char>::empty());
        Vec::new()
    }
}

pub fn normalize_toc_entry(entry: &str) -> (r: String)
    ensures
        r@ == spec_normalize_toc_entry(entry@),
{
    let (gaps, caps) = regex_pieces(
        r#"\[((?:\s*<a\s+id="[^"]+"></a>)+\s*)([^\]]+?)\]\(([^)]+)\)"#,
        entry,
    );
    let ghost gv = strings_view(gaps@);
    let ghost cv = all_groups_view(caps@);
    proof {
        reveal_strlit(" [");
        reveal_strlit("](");
        reveal_strlit(")");
    }
    let mut out: Vec<char> = if gaps.len() > 0 { chars_of(gaps[0].as_str()) } else { Vec::new() };
    let mut k: usize = 0;
    while k < caps.len()
        invariant
            k <= caps@.len(),
            gv == strings_view(gaps@),
            cv == all_groups_view(caps@),
            out@ == rebuild(gv, cv, k as int),
        decreases caps@.len() - k,
    {
        let g = &caps[k];
        append_chars(&mut out, &group_trimmed(g, 1));
        append_chars(&mut out, &chars_of(" ["));
        append_chars(&mut out, &group_trimmed(g, 2));
        append_chars(&mut out, &chars_of("]("));
        append_chars(&mut out, &group_trimmed(g, 3));
        append_chars(&mut out, &chars_of(")"));
        if k + 1 < gaps.len() {
            append_chars(&mut out, &chars_of(gaps[k + 1].as_str()));
        }
        assert(out@ =~= rebuild(gv, cv, k + 1));
        k += 1;
    }
    string_of(&out)
}

/// `- entry` lines, one per entry.
pub open spec fn spec_format_toc_entries(entries: Seq<Seq<char>>) -> Seq<char> {
    join_seq(entries.map_values(|e: Seq<char>| "- "@ + spec_normalize_toc_entry(e)), seq!['\n'])
}

pub fn format_toc_entries(entries: Vec<String>) -> (r: String)
    ensures
        r@ == spec_format_toc_entries(strings_view(entries@)),
{
    let ghost ev = strings_view(entries@);
    let mut lines: Vec<Vec<char>> = Vec::new();
    let mut i: usize = 0;
    proof { reveal_strlit("- "); }
    while i < entries.len()
        invariant
            i <= entries@.len(),
            ev == strings_view(entries@),
            lines@.map_values(|v: Vec<char>| v@)
                == ev.take(i as int).map_values(|e: Seq<char>| "- "@ + spec_normalize_toc_entry(e)),
        decreases entries@.len() - i,
    {
        let mut line = chars_of("- ");
        append_chars(&mut line, &chars_of(normalize_toc_entry(entries[i].as_str()).as_str()));
        let ghost before = lines@.map_values(|v: Vec<char>| v@);
        lines.push(line);
        assert(lines@.map_values(|v: Vec<char>| v@) =~= before.push(line@));
        assert(ev.take(i + 1).map_values(|e: Seq<char>| "- "@ + spec_normalize_toc_entry(e))
            =~= ev.take(i as int).map_values(|e: Seq<char>| "- "@ + spec_normalize_toc_entry(e)).push(line@));
        i += 1;
    }
    assert(ev.take(entries@.len() as int) =~= ev);
    let sep = vec!['\n'];
    assert(sep@ =~= seq!['\n']);
    string_of(&join_with(&lines, &sep))
}

/// A block made into a list of entries when it is a flat table of
/// contents (three entries at least): after a contents heading line,
/// after the word "Contents" in the same paragraph, or as the paragraph
/// that follows a contents heading block.
pub open spec fn spec_structure_flat_toc_block(block: Seq<char>, previous_was_toc_heading: bool) -> Seq<char> {
    let trimmed = trim(block);
    match spec_toc_heading_block_and_body(trimmed) {
        Some((heading, body)) => {
            let entries = spec_split_flat_toc_entries(body);
            if entries.len() < 3 { block } else { heading + "\n\n"@ + spec_format_toc_entries(entries) }
        },
        None => match spec_flat_toc_heading_and_body(trimmed) {
            Some((heading, body)) => {
                let entries = spec_split_flat_toc_entries(spec_unwrap_paragraph(body));
                if entries.len() < 3 { block } else { "## "@ + heading + "\n\n"@ + spec_format_toc_entries(entries) }
            },
            None => {
                let entries = spec_split_flat_toc_entries(spec_unwrap_paragraph(trimmed));
                if previous_was_toc_heading && entries.len() >= 3 { spec_format_toc_entries(entries) } else { block }
            },
        },
    }
}

pub fn structure_flat_toc_block(block: &str, previous_was_toc_heading: bool) -> (r: String)
    ensures
        r@ == spec_structure_flat_toc_block(block@, previous_was_toc_heading),
{
    let trimmed = string_of(&trim_chars(&chars_of(block)));
    proof {
        reveal_strlit("\n\n");
        reveal_strlit("## ");
    }
    match toc_heading_block_and_body(trimmed.as_str()) {
        Some((heading, body)) => {
            let entries = split_flat_toc_entries(body.as_str());
            if entries.len() < 3 {
                return string_of(&chars_of(block));
            }
            let mut out = chars_of(heading.as_str());
            append_chars(&mut out, &chars_of("\n\n"));
            append_chars(&mut out, &chars_of(format_toc_entries(entries).as_str()));
            return string_of(&out);
        },
        None => {},
    }
    match flat_toc_heading_and_body(trimmed.as_str()) {
        Some((heading, body)) => {
            let entries = split_flat_toc_entries(unwrap_toc_paragraph(body.as_str()).as_str());
            if entries.len() < 3 {
                return string_of(&chars_of(block));
            }
            let mut out = chars_of("## ");
            append_chars(&mut out, &chars_of(heading.as_str()));
            append_chars(&mut out, &chars_of("\n\n"));
            append_chars(&mut out, &chars_of(format_toc_entries(entries).as_str()));
            return string_of(&out);
        },
        None => {},
    }
    let entries = split_flat_toc_entries(unwrap_toc_paragraph(trimmed.as_str()).as_str());
    if previous_was_toc_heading && entries.len() >= 3 {
        return format_toc_entries(entries);
    }
    string_of(&chars_of(block))
}

/// `s.split(pat)`: the pieces between non-overlapping occurrences of
/// `pat`, from the left.
pub open spec fn split_str(s: Seq<char>, pat: Seq<char>) -> Seq<Seq<char>>
    decreases s.len(),
{
    if pat.len() == 0 {
        seq![s]
    } else {
        match crate::toc::find_from(s, pat, 0) {
            Some(k) => {
                proof { lemma_find_from_some(s, pat, 0); }
                seq![s.take(k as int)] + split_str(s.skip((k + pat.len()) as int), pat)
            },
            None => seq![s],
        }
    }
}

/// The state of the scan over the blocks: whether the previous block
/// was a contents heading left as it was.
pub open spec fn structure_scan(blocks: Seq<Seq<char>>) -> (bool, Seq<Seq<char>>)
    decreases blocks.len(),
{
    if blocks.len() == 0 {
        (false, Seq::<Seq<char>>::empty())
    } else {
        let (prev, out) = structure_scan(blocks.drop_last());
        let b = blocks.last();
        let s = spec_structure_flat_toc_block(b, prev);
        (spec_is_toc_heading(b) && s == b, out.push(s))
    }
}

pub open spec fn spec_structure_flat_toc_blocks(markdown: Seq<char>) -> Seq<char> {
    join_seq(structure_scan(split_str(markdown, "\n\n"@)).1, "\n\n"@)
}

pub proof fn lemma_find_from_some(s: Seq<char>, pat: Seq<char>, from: int)
    ensures
        crate::toc::find_from(s, pat, from) matches Some(k) ==> from <= k && k + pat.len() <= s.len()
            && s.subrange(k as int, (k + pat.len()) as int) == pat,
    decreases s.len() + 1 - from,
{
    if from < 0 || from + pat.len() > s.len() {
    } else if s.subrange(from, from + pat.len()) == pat {
    } else {
        lemma_find_from_some(s, pat, from + 1);
    }
}

/// `s.split(pat)` on characters.
pub fn split_str_chars(s: &Vec<char>, pat: &Vec<char>) -> (r: Vec<Vec<char>>)
    requires
        pat@.len() > 0,
    ensures
        r@.map_values(|v: Vec<char>| v@) == split_str(s@, pat@),
    decreases s@.len(),
{
    match crate::toc::find_chars_from(s, pat, 0) {
        Some(k) => {
            proof { lemma_find_from_some(s@, pat@, 0); }
            assert(k + pat@.len() <= s@.len());
            let total = s.len();
            assert(total == s@.len());
            let head = crate::text::sub_chars(s, 0, k);
            let tail = crate::text::sub_chars(s, k + pat.len(), total);
            assert(head@ =~= s@.take(k as int));
            assert(tail@ =~= s@.skip((k + pat@.len()) as int));
            let rest = split_str_chars(&tail, pat);
            let mut r: Vec<Vec<char>> = Vec::new();
            r.push(head);
            let ghost first = r@.map_values(|v: Vec<char>| v@);
            let mut i: usize = 0;
            let ghost rv = rest@.map_values(|v: Vec<char>| v@);
            while i < rest.len()
                invariant
                    i <= rest@.len(),
                    rv == rest@.map_values(|v: Vec<char>| v@),
                    r@.map_values(|v: Vec<char>| v@) == seq![head@] + rv.take(i as int),
                decreases rest@.len() - i,
            {
                let ghost before = r@.map_values(|v: Vec<char>| v@);
                let piece = crate::text::sub_chars(&rest[i], 0, rest[i].len());
                assert(piece@ =~= rv[i as int]);
                r.push(piece);
                assert(r@.map_values(|v: Vec<char>| v@) =~= before.push(rv[i as int]));
                assert(rv.take(i + 1) =~= rv.take(i as int).push(rv[i as int]));
                i += 1;
            }
            assert(rv.take(rest@.len() as int) =~= rv);
            r
        },
        None => {
            let mut r: Vec<Vec<char>> = Vec::new();
            r.push(crate::text::sub_chars(s, 0, s.len()));
            assert(s@.subrange(0, s@.len() as int) =~= s@);
            assert(r@.map_values(|v: Vec<char>| v@) =~= seq![s@]);
            r
        },
    }
}

/// Every flat table of contents of the chapter made into a list.
pub fn structure_flat_toc_blocks(markdown: &str) -> (r: String)
    ensures
        r@ == spec_structure_flat_toc_blocks(markdown@),
{
    proof { reveal_strlit("\n\n"); }
    let sep = chars_of("\n\n");
    let blocks = split_str_chars(&chars_of(markdown), &sep);
    let ghost bv = blocks@.map_values(|v: Vec<char>| v@);
    let mut previous_was_toc_heading = false;
    let mut out: Vec<Vec<char>> = Vec::new();
    let mut i: usize = 0;
    while i < blocks.len()
        invariant
            i <= blocks@.len(),
            bv == blocks@.map_values(|v: Vec<char>| v@),
            (previous_was_toc_heading, out@.map_values(|v: Vec<char>| v@)) == structure_scan(bv.take(i as int)),
        decreases blocks@.len() - i,
    {
        let ghost t = bv.take(i + 1);
        assert(t.drop_last() =~= bv.take(i as int));
        assert(t.last() == blocks@[i as int]@);
        let block = string_of(&blocks[i]);
        let structured = structure_flat_toc_block(block.as_str(), previous_was_toc_heading);
        previous_was_toc_heading = is_toc_heading_block(block.as_str())
            && str_eq(structured.as_str(), block.as_str());
        let ghost before = out@.map_values(|v: Vec<char>| v@);
        let s = chars_of(structured.as_str());
        out.push(s);
        assert(out@.map_values(|v: Vec<char>| v@) =~= before.push(s@));
        i += 1;
    }
    assert(bv.take(blocks@.len() as int) =~= bv);
    string_of(&join_with(&out, &sep))
}

} // verus!

//! Reading the lines of a table of contents written as Markdown.
use vstd::prelude::*;
use crate::text::{
    lines_of, spec_lines, join_with, join_seq, chars_of, string_of, sub_chars, append_chars, push_str, trim_chars, trim, trim_start,
    collapse_whitespace, collapse_runs, to_lowercase, lowercase, matches_at, is_whitespace,
    lemma_trim_start_is_suffix,
};
use crate::naming::{trim_start_by, trim_end_by};
use crate::regex_calls::{
    regex_first_captures, regex_captures, regex_replaced_all, regex_replace_all,
    regex_replaced_first, regex_replace_first, regex_match, regex_is_match, groups_view,
    regex_match_pieces, regex_pieces,
};
use crate::markdown::{escape_markdown_link_text, spec_escape_link_text};
use crate::textmap::TextMap;
use crate::links::ChapterLinkMap;
use crate::model::{NavPoint, OutputChapter, opt_view, clone_opt_string, out_view, out_views};

verus! {

broadcast use vstd::string::group_string_axioms;

/// A Markdown list item: indentation, marker, label.
pub open spec fn list_line_pattern() -> Seq<char> {
    r"^(\s*)([-*+]\s+|\d+[.)]\s+)(.+?)\s*$"@
}

/// The text of capture group `k`, or nothing when it took no part.
pub open spec fn group_text(groups: Seq<Option<Seq<char>>>, k: int) -> Seq<char> {
    if 0 <= k < groups.len() && groups[k] is Some { groups[k]->0 } else { Seq::<char>::empty() }
}

pub open spec fn group_present(groups: Seq<Option<Seq<char>>>, k: int) -> bool {
    0 <= k < groups.len() && groups[k] is Some
}

fn group_of(groups: &Vec<Option<String>>, k: usize) -> (r: Vec<char>)
    ensures
        r@ == group_text(groups_view(groups@), k as int),
{
    if k < groups.len() {
        match &groups[k] {
            Some(g) => chars_of(g.as_str()),
            None => Vec::new(),
        }
    } else {
        Vec::new()
    }
}

/// The captures of a Markdown list line.
pub fn markdown_list_line_captures(line: &str) -> (r: Option<Vec<Option<String>>>)
    ensures
        match r {
            Some(g) => regex_first_captures(list_line_pattern(), line@) == Some(groups_view(g@)),
            None => regex_first_captures(list_line_pattern(), line@) is None,
        },
{
    regex_captures(r"^(\s*)([-*+]\s+|\d+[.)]\s+)(.+?)\s*$", line)
}

pub open spec fn spec_is_list_line(line: Seq<char>) -> bool {
    regex_first_captures(list_line_pattern(), line) is Some
}

/// Whether the line is a Markdown list item.
pub fn is_markdown_list_line(line: &str) -> (r: bool)
    ensures
        r == spec_is_list_line(line@),
{
    markdown_list_line_captures(line).is_some()
}

/// The UTF-8 length of the indentation of a list line, 0 for other lines.
pub open spec fn spec_list_line_indent(line: Seq<char>) -> usize {
    match regex_first_captures(list_line_pattern(), line) {
        Some(g) => if group_present(g, 1) {
            vstd::utf8::encode_utf8(group_text(g, 1)).len() as usize
        } else {
            0
        },
        None => 0,
    }
}

pub fn list_line_indent(line: &str) -> (r: usize)
    ensures
        r == spec_list_line_indent(line@),
{
    match markdown_list_line_captures(line) {
        Some(groups) => {
            if 1 < groups.len() {
                match &groups[1] {
                    Some(g) => g.as_str().len(),
                    None => 0,
                }
            } else {
                0
            }
        },
        None => 0,
    }
}


/// The target of the first Markdown link `](target)` in the line.
pub open spec fn spec_markdown_link_target(line: Seq<char>) -> Option<Seq<char>> {
    match regex_first_captures(r"\]\(([^)]+)\)"@, line) {
        Some(g) => if group_present(g, 1) { Some(group_text(g, 1)) } else { None },
        None => None,
    }
}

pub fn markdown_link_target(line: &str) -> (r: Option<String>)
    ensures
        crate::model::opt_view(r) == spec_markdown_link_target(line@),
{
    match regex_captures(r"\]\(([^)]+)\)", line) {
        Some(groups) => {
            if 1 < groups.len() {
                match &groups[1] {
                    Some(g) => Some(g.clone()),
                    None => None,
                }
            } else {
                None
            }
        },
        None => None,
    }
}

pub open spec fn spec_is_heading_line(line: Seq<char>) -> bool {
    regex_match(r"^#{1,6}\s+"@, line)
}

pub open spec fn spec_is_subheading_line(line: Seq<char>) -> bool {
    regex_match(r"^#{2,6}\s+"@, line)
}

/// Whether the line is a Markdown heading of any level.
pub fn is_markdown_heading_line(line: &str) -> (r: bool)
    ensures
        r == spec_is_heading_line(line@),
{
    regex_is_match(r"^#{1,6}\s+", line)
}

/// Whether the line is a Markdown heading below the first level.
pub fn is_markdown_subheading_line(line: &str) -> (r: bool)
    ensures
        r == spec_is_subheading_line(line@),
{
    regex_is_match(r"^#{2,6}\s+", line)
}

/// The title of a Markdown heading line.
pub open spec fn spec_markdown_heading_title(line: Seq<char>) -> Option<Seq<char>> {
    match regex_first_captures(r"^#{1,6}\s+(.+?)\s*$"@, line) {
        Some(g) => if group_present(g, 1) { Some(trim(group_text(g, 1))) } else { None },
        None => None,
    }
}

pub fn markdown_heading_title(line: &str) -> (r: Option<Vec<char>>)
    ensures
        match r {
            Some(t) => spec_markdown_heading_title(line@) == Some(t@),
            None => spec_markdown_heading_title(line@) is None,
        },
{
    match regex_captures(r"^#{1,6}\s+(.+?)\s*$", line) {
        Some(groups) => {
            if 1 < groups.len() {
                match &groups[1] {
                    Some(g) => Some(trim_chars(&chars_of(g.as_str()))),
                    None => None,
                }
            } else {
                None
            }
        },
        None => None,
    }
}

/// The ids of a line made only of `<a id="..."></a>` anchors.
pub open spec fn spec_standalone_anchor_ids(line: Seq<char>) -> Seq<Seq<char>> {
    if regex_match(r#"^(?:<a\s+id="[^"]+"></a>\s*)+$"#@, line) {
        present_groups(first_groups(regex_match_pieces(r#"<a\s+id="([^"]+)"></a>"#@, line).1))
    } else {
        Seq::<Seq<char>>::empty()
    }
}

/// Capture group 1 of each match.
pub open spec fn first_groups(caps: Seq<Seq<Option<Seq<char>>>>) -> Seq<Option<Seq<char>>> {
    caps.map_values(|g: Seq<Option<Seq<char>>>| if g.len() > 1 { g[1] } else { None })
}

/// The groups that took part, in order.
pub open spec fn present_groups(g: Seq<Option<Seq<char>>>) -> Seq<Seq<char>>
    decreases g.len(),
{
    if g.len() == 0 {
        Seq::<Seq<char>>::empty()
    } else {
        let rest = present_groups(g.drop_last());
        match g.last() {
            Some(t) => rest.push(t),
            None => rest,
        }
    }
}

pub fn standalone_anchor_ids(line: &str) -> (r: Vec<Vec<char>>)
    ensures
        r@.map_values(|v: Vec<char>| v@) == spec_standalone_anchor_ids(line@),
{
    let mut r: Vec<Vec<char>> = Vec::new();
    if !regex_is_match(r#"^(?:<a\s+id="[^"]+"></a>\s*)+$"#, line) {
        assert(r@.map_values(|v: Vec<char>| v@) =~= Seq::<Seq<char>>::empty());
        return r;
    }
    let (_, caps) = regex_pieces(r#"<a\s+id="([^"]+)"></a>"#, line);
    let ghost gv = first_groups(crate::regex_calls::all_groups_view(caps@));
    let mut i: usize = 0;
    while i < caps.len()
        invariant
            i <= caps@.len(),
            gv == first_groups(crate::regex_calls::all_groups_view(caps@)),
            gv.len() == caps@.len(),
            r@.map_values(|v: Vec<char>| v@) == present_groups(gv.take(i as int)),
        decreases caps@.len() - i,
    {
        let ghost t = gv.take(i + 1);
        assert(t.drop_last() =~= gv.take(i as int));
        let ghost before = r@;
        let group: Option<&String> = if caps[i].len() > 1 {
            match &caps[i][1] {
                Some(g) => Some(g),
                None => None,
            }
        } else {
            None
        };
        assert(gv[i as int] == match group { Some(g) => Some(g@), None => None::<Seq<char>> });
        match group {
            Some(g) => {
                let c = chars_of(g.as_str());
                r.push(c);
                assert(r@.map_values(|v: Vec<char>| v@) =~= before.map_values(|v: Vec<char>| v@).push(c@));
            },
            None => {},
        }
        i += 1;
    }
    assert(gv.take(caps@.len() as int) =~= gv);
    r
}

/// Whether the line holds nothing but anchors.
pub fn is_standalone_anchor_line(line: &str) -> (r: bool)
    ensures
        r == (spec_standalone_anchor_ids(line@).len() > 0),
{
    standalone_anchor_ids(line).len() > 0
}

/// Position of the first occurrence of `pat` in `s` at or after `from`.
pub open spec fn find_from(s: Seq<char>, pat: Seq<char>, from: int) -> Option<nat>
    decreases s.len() + 1 - from,
{
    if from < 0 || from + pat.len() > s.len() {
        None
    } else if s.subrange(from, from + pat.len()) == pat {
        Some(from as nat)
    } else {
        find_from(s, pat, from + 1)
    }
}

/// `str::find` on characters.
pub fn find_chars_from(s: &Vec<char>, pat: &Vec<char>, from: usize) -> (r: Option<usize>)
    requires
        from <= s@.len(),
    ensures
        match r {
            Some(k) => find_from(s@, pat@, from as int) == Some(k as nat) && k + pat@.len() <= s@.len(),
            None => find_from(s@, pat@, from as int) is None,
        },
    decreases s@.len() - from,
{
    let mut i = from;
    while i <= s.len()
        invariant
            from <= i,
            i <= s@.len() + 1,
            find_from(s@, pat@, from as int) == find_from(s@, pat@, i as int),
        decreases s@.len() + 1 - i,
    {
        if pat.len() > s.len() - i {
            return None;
        }
        if matches_at(s, i, pat) {
            return Some(i);
        }
        assert(pat@.len() > 0) by {
            if pat@.len() == 0 {
                assert(s@.subrange(i as int, i as int) =~= pat@);
            }
        }
        i += 1;
    }
    None
}

pub open spec fn anchor_open() -> Seq<char> {
    seq!['<', 'a', ' ']
}

pub open spec fn anchor_close() -> Seq<char> {
    seq!['<', '/', 'a', '>']
}

/// Moves the inline anchors that open a label in front of it: returns
/// the anchors (each followed by a space) and the rest of the label.
pub open spec fn split_anchors_from(anchors: Seq<char>, rest: Seq<char>) -> (Seq<char>, Seq<char>)
    decreases rest.len(),
{
    let t = trim_start(rest);
    if !(t.len() >= 3 && t.take(3) == anchor_open()) {
        (anchors, t)
    } else {
        match find_from(t, anchor_close(), 0) {
            None => (anchors, rest),
            Some(e) => {
                let end = e + 4 as int;
                if end <= t.len() && t.len() <= rest.len() {
                    split_anchors_from(anchors + t.take(end).push(' '), t.skip(end))
                } else {
                    (anchors, rest)
                }
            },
        }
    }
}

pub open spec fn spec_split_leading_inline_anchors(label: Seq<char>) -> (Seq<char>, Seq<char>) {
    split_anchors_from(Seq::<char>::empty(), trim_start(label))
}

proof fn lemma_find_from_bound(s: Seq<char>, pat: Seq<char>, from: int)
    ensures
        find_from(s, pat, from) matches Some(k) ==> from <= k && k + pat.len() <= s.len(),
    decreases s.len() + 1 - from,
{
    if !(from < 0 || from + pat.len() > s.len()) && s.subrange(from, from + pat.len()) != pat {
        lemma_find_from_bound(s, pat, from + 1);
    }
}

proof fn lemma_trim_start_len(s: Seq<char>)
    ensures
        trim_start(s).len() <= s.len(),
{
    lemma_trim_start_is_suffix(s);
}

fn trim_start_chars(v: &Vec<char>) -> (r: Vec<char>)
    ensures
        r@ == trim_start(v@),
{
    let mut i: usize = 0;
    assert(v@.skip(0) =~= v@);
    while i < v.len() && is_whitespace(v[i])
        invariant
            i <= v.len(),
            trim_start(v@) == trim_start(v@.skip(i as int)),
        decreases v.len() - i,
    {
        assert(v@.skip(i + 1) =~= v@.skip(i as int).drop_first());
        i += 1;
    }
    assert(v@.skip(i as int) =~= v@.subrange(i as int, v.len() as int));
    sub_chars(v, i, v.len())
}

/// Splits the anchors that open a table-of-contents label from its text.
pub fn split_leading_inline_anchors(label: &str) -> (r: (String, String))
    ensures
        (r.0@, r.1@) == spec_split_leading_inline_anchors(label@),
{
    let mut anchors: Vec<char> = Vec::new();
    let mut rest = trim_start_chars(&chars_of(label));
    let open = vec!['<', 'a', ' '];
    let close = vec!['<', '/', 'a', '>'];
    assert(open@ =~= anchor_open());
    assert(close@ =~= anchor_close());
    loop
        invariant
            open@ == anchor_open(),
            close@ == anchor_close(),
            split_anchors_from(anchors@, rest@) == spec_split_leading_inline_anchors(label@),
        decreases rest@.len(),
    {
        let t = trim_start_chars(&rest);
        proof {
            lemma_trim_start_len(rest@);
        }
        let opens = t.len() >= 3 && t[0] == '<' && t[1] == 'a' && t[2] == ' ';
        proof {
            if t@.len() >= 3 {
                if opens {
                    assert(t@.take(3) =~= anchor_open());
                } else if t@.take(3) == anchor_open() {
                    assert(t@.take(3)[0] == t@[0] && t@.take(3)[1] == t@[1] && t@.take(3)[2] == t@[2]);
                }
            }
        }
        if !opens {
            return (string_of(&anchors), string_of(&t));
        }
        match find_chars_from(&t, &close, 0) {
            None => {
                return (string_of(&anchors), string_of(&rest));
            },
            Some(e) => {
                let end = e + 4;
                let mut piece = sub_chars(&t, 0, end);
                piece.push(' ');
                append_chars(&mut anchors, &piece);
                assert(t@.subrange(0, end as int) =~= t@.take(end as int));
                rest = sub_chars(&t, end, t.len());
                assert(t@.subrange(end as int, t@.len() as int) =~= t@.skip(end as int));
            },
        }
    }
}

/// The characters `` ` ``, `*` and `_` removed.
pub open spec fn remove_marks(s: Seq<char>) -> Seq<char>
    decreases s.len(),
{
    if s.len() == 0 {
        s
    } else {
        let rest = remove_marks(s.drop_last());
        let c = s.last();
        if c == '`' || c == '*' || c == '_' { rest } else { rest.push(c) }
    }
}

/// Every `\` followed by `target` replaced by `target`, scanning left to
/// right as `str::replace` does.
pub open spec fn unescape(s: Seq<char>, target: char) -> Seq<char>
    decreases s.len(),
{
    if s.len() == 0 {
        s
    } else if s.len() >= 2 && s[0] == '\\' && s[1] == target {
        seq![target] + unescape(s.skip(2), target)
    } else {
        seq![s[0]] + unescape(s.skip(1), target)
    }
}

pub open spec fn is_toc_edge(c: char) -> bool {
    c == '.' || c == ':' || c == ';' || c == '-' || c == '\u{2013}' || c == '\u{2014}'
}

pub open spec fn toc_edge() -> spec_fn(char) -> bool {
    |c: char| is_toc_edge(c)
}

/// The key under which a table-of-contents label is looked up: tags,
/// emphasis marks and escapes dropped, whitespace collapsed, edge
/// punctuation trimmed, lower-cased.
pub open spec fn spec_normalize_toc_lookup(text: Seq<char>) -> Seq<char> {
    let untagged = regex_replaced_all(r"<[^>]+>"@, text, " "@);
    let plain = unescape(unescape(remove_marks(untagged), '['), ']');
    let collapsed = trim(collapse_runs(plain, ' '));
    lowercase(trim_end_by(trim_start_by(collapsed, toc_edge()), toc_edge()))
}

fn remove_marks_chars(v: &Vec<char>) -> (r: Vec<char>)
    ensures
        r@ == remove_marks(v@),
{
    let mut r: Vec<char> = Vec::new();
    let mut i: usize = 0;
    while i < v.len()
        invariant
            i <= v.len(),
            r@ == remove_marks(v@.take(i as int)),
        decreases v.len() - i,
    {
        let ghost t = v@.take(i + 1);
        assert(t.drop_last() =~= v@.take(i as int));
        let c = v[i];
        if !(c == '`' || c == '*' || c == '_') {
            r.push(c);
        }
        i += 1;
    }
    assert(v@.take(v.len() as int) =~= v@);
    r
}

fn unescape_chars(v: &Vec<char>, target: char) -> (r: Vec<char>)
    ensures
        r@ == unescape(v@, target),
{
    let mut r: Vec<char> = Vec::new();
    let mut i: usize = 0;
    assert(v@.skip(0) =~= v@);
    while i < v.len()
        invariant
            i <= v.len(),
            r@ + unescape(v@.skip(i as int), target) == unescape(v@, target),
        decreases v.len() - i,
    {
        let ghost w = v@.skip(i as int);
        if i + 1 < v.len() && v[i] == '\\' && v[i + 1] == target {
            assert(w[0] == v@[i as int] && w[1] == v@[i + 1]);
            assert(w.skip(2) =~= v@.skip(i + 2));
            r.push(target);
            assert(r@ + unescape(v@.skip(i + 2), target) =~= unescape(v@, target));
            i += 2;
        } else {
            proof {
                assert(w[0] == v@[i as int]);
                if w.len() >= 2 {
                    assert(w[1] == v@[i + 1]);
                }
            }
            assert(w.skip(1) =~= v@.skip(i + 1));
            r.push(v[i]);
            assert(r@ + unescape(v@.skip(i + 1), target) =~= unescape(v@, target));
            i += 1;
        }
    }
    assert(v@.skip(v.len() as int) =~= Seq::<char>::empty());
    assert(r@ =~= unescape(v@, target));
    r
}

fn trim_toc_edges(v: &Vec<char>) -> (r: Vec<char>)
    ensures
        r@ == trim_end_by(trim_start_by(v@, toc_edge()), toc_edge()),
{
    let mut start: usize = 0;
    assert(v@.subrange(0, v.len() as int) =~= v@);
    while start < v.len() && (v[start] == '.' || v[start] == ':' || v[start] == ';' || v[start] == '-'
        || v[start] == '\u{2013}' || v[start] == '\u{2014}')
        invariant
            start <= v.len(),
            trim_start_by(v@, toc_edge()) == trim_start_by(v@.subrange(start as int, v.len() as int), toc_edge()),
        decreases v.len() - start,
    {
        assert(v@.subrange(start + 1, v.len() as int) =~= v@.subrange(start as int, v.len() as int).drop_first());
        start += 1;
    }
    let mut end = v.len();
    while end > start && (v[end - 1] == '.' || v[end - 1] == ':' || v[end - 1] == ';' || v[end - 1] == '-'
        || v[end - 1] == '\u{2013}' || v[end - 1] == '\u{2014}')
        invariant
            start <= end <= v.len(),
            trim_start_by(v@, toc_edge()) == trim_start_by(v@.subrange(start as int, v.len() as int), toc_edge()),
            !(start < v.len() && is_toc_edge(v@[start as int])),
            trim_end_by(trim_start_by(v@, toc_edge()), toc_edge())
                == trim_end_by(v@.subrange(start as int, end as int), toc_edge()),
        decreases end,
    {
        assert(v@.subrange(start as int, end - 1) =~= v@.subrange(start as int, end as int).drop_last());
        end -= 1;
    }
    sub_chars(v, start, end)
}

/// The key under which a table-of-contents label is looked up.
pub fn normalize_toc_lookup_text(text: &str) -> (r: String)
    ensures
        r@ == spec_normalize_toc_lookup(text@),
{
    let untagged = regex_replace_all(r"<[^>]+>", text, " ");
    let plain = unescape_chars(&unescape_chars(&remove_marks_chars(&chars_of(untagged.as_str())), '['), ']');
    let collapsed = trim_chars(&collapse_whitespace(&plain, ' '));
    let edged = trim_toc_edges(&collapsed);
    to_lowercase(string_of(&edged).as_str())
}

pub open spec fn section_number_pattern() -> Seq<char> {
    r"^\s*\d+(?:\.\d+)*\.?\s+"@
}

/// The title without a leading section number such as `1.2.`.
pub fn strip_leading_section_number(text: &str) -> (r: String)
    ensures
        r@ == regex_replaced_first(section_number_pattern(), text@, ""@),
{
    regex_replace_first(r"^\s*\d+(?:\.\d+)*\.?\s+", text, "")
}


/// A map of lookup keys to optional links, as plain values.
pub open spec fn tmv(m: Map<Seq<char>, Option<String>>) -> Map<Seq<char>, Option<Seq<char>>> {
    m.map_values(|v: Option<String>| opt_view(v))
}

/// The link found for a lookup key, if the key names exactly one target.
pub open spec fn target_of(m: Map<Seq<char>, Option<Seq<char>>>, key: Seq<char>) -> Option<Seq<char>> {
    if m.contains_key(key) { m[key] } else { None }
}

proof fn lemma_tmv_insert(m: Map<Seq<char>, Option<String>>, k: Seq<char>, v: Option<String>)
    ensures
        tmv(m.insert(k, v)) == tmv(m).insert(k, opt_view(v)),
{
    assert(tmv(m.insert(k, v)) =~= tmv(m).insert(k, opt_view(v)));
}

pub open spec fn spec_insert_unique(m: Map<Seq<char>, Option<Seq<char>>>, key: Seq<char>, link: Seq<char>) -> Map<Seq<char>, Option<Seq<char>>> {
    if key.len() == 0 {
        m
    } else if m.contains_key(key) {
        if m[key] == Some(link) { m } else { m.insert(key, None) }
    } else {
        m.insert(key, Some(link))
    }
}

pub open spec fn spec_insert_preferred(m: Map<Seq<char>, Option<Seq<char>>>, key: Seq<char>, link: Seq<char>) -> Map<Seq<char>, Option<Seq<char>>> {
    if key.len() == 0 || m.contains_key(key) { m } else { m.insert(key, Some(link)) }
}

/// Records `link` for `key`; a key that two different links claim is
/// kept with no link, so that it links nowhere.
pub fn insert_unique_toc_target(targets: &mut TextMap<Option<String>>, key: String, link: &str)
    ensures
        tmv(final(targets)@) == spec_insert_unique(tmv(old(targets)@), key@, link@),
{
    if key.as_str().is_empty() {
        return;
    }
    let same = match targets.get(key.as_str()) {
        Some(existing) => Some(match existing {
            Some(e) => crate::text::str_eq(e.as_str(), link),
            None => false,
        }),
        None => None,
    };
    let ghost k = key@;
    let ghost before = targets@;
    match same {
        Some(true) => {},
        Some(false) => {
            targets.insert(key, None);
            proof { lemma_tmv_insert(before, k, None); }
        },
        None => {
            let value = Some(string_of(&chars_of(link)));
            targets.insert(key, value);
            proof { lemma_tmv_insert(before, k, value); }
        },
    }
}

/// Records `link` for `key` unless the key already has an entry.
pub fn insert_preferred_toc_target(targets: &mut TextMap<Option<String>>, key: String, link: &str)
    ensures
        tmv(final(targets)@) == spec_insert_preferred(tmv(old(targets)@), key@, link@),
{
    if key.as_str().is_empty() || targets.contains_key(key.as_str()) {
        return;
    }
    let value = Some(string_of(&chars_of(link)));
    let ghost k = key@;
    let ghost before = targets@;
    targets.insert(key, value);
    proof { lemma_tmv_insert(before, k, value); }
}

/// The Markdown link of a navigation entry: its exact `path#fragment`
/// entry, or the document's entry with the fragment appended, or the
/// document's entry.
pub open spec fn spec_nav_point_link(p: NavPoint, links: Map<Seq<char>, String>) -> Option<Seq<char>> {
    let path = p.epub_path@;
    match p.fragment {
        Some(f) => {
            let key = path.push('#') + f@;
            if links.contains_key(key) {
                Some(links[key]@)
            } else if links.contains_key(path) {
                Some(links[path]@.push('#') + f@)
            } else {
                None
            }
        },
        None => if links.contains_key(path) { Some(links[path]@) } else { None },
    }
}

pub fn nav_point_markdown_link(point: &NavPoint, chapter_links: &ChapterLinkMap) -> (r: Option<String>)
    ensures
        opt_view(r) == spec_nav_point_link(*point, chapter_links.epub_path_to_markdown@),
{
    let chapter_links = &chapter_links.epub_path_to_markdown;
    match &point.fragment {
        Some(f) => {
            let mut key = chars_of(point.epub_path.as_str());
            key.push('#');
            append_chars(&mut key, &chars_of(f.as_str()));
            let key = string_of(&key);
            if let Some(link) = chapter_links.get(key.as_str()) {
                return Some(link.clone());
            }
            if let Some(markdown) = chapter_links.get(point.epub_path.as_str()) {
                let mut out = chars_of(markdown.as_str());
                out.push('#');
                append_chars(&mut out, &chars_of(f.as_str()));
                return Some(string_of(&out));
            }
            None
        },
        None => match chapter_links.get(point.epub_path.as_str()) {
            Some(link) => Some(link.clone()),
            None => None,
        },
    }
}

pub open spec fn contains_link_open(s: Seq<char>) -> bool {
    find_from(s, seq![']', '('], 0) is Some
}

/// `{indent}{marker}{anchors}[{label}]({target})`.
pub open spec fn linked_list_line(g: Seq<Option<Seq<char>>>, anchors: Seq<char>, label: Seq<char>, target: Seq<char>) -> Seq<char> {
    group_text(g, 1) + group_text(g, 2) + anchors + seq!['['] + spec_escape_link_text(label) + seq![']', '(']
        + target + seq![')']
}

/// The key of a numbered label: marker and label together, when the
/// marker is a number.
pub open spec fn numbered_key(g: Seq<Option<Seq<char>>>, link_label: Seq<char>) -> Seq<char> {
    let marker = trim(group_text(g, 2));
    if marker.len() > 0 && '0' <= marker[0] <= '9' {
        spec_normalize_toc_lookup(marker.push(' ') + link_label)
    } else {
        Seq::<char>::empty()
    }
}

/// The target of a plain table-of-contents label: by its numbered form,
/// by the label, or by the label without its section number.
pub open spec fn spec_label_target(m: Map<Seq<char>, Option<Seq<char>>>, g: Seq<Option<Seq<char>>>, link_label: Seq<char>) -> Option<Seq<char>> {
    match target_of(m, numbered_key(g, link_label)) {
        Some(t) => Some(t),
        None => match target_of(m, spec_normalize_toc_lookup(link_label)) {
            Some(t) => Some(t),
            None => target_of(m, spec_normalize_toc_lookup(
                regex_replaced_first(section_number_pattern(), link_label, ""@))),
        },
    }
}

/// A plain list line of a table of contents, turned into a link when its
/// label names a known target.
pub open spec fn spec_link_plain_toc_list_line(line: Seq<char>, m: Map<Seq<char>, Option<Seq<char>>>) -> Option<Seq<char>> {
    match regex_first_captures(list_line_pattern(), line) {
        None => None,
        Some(g) => {
            if !group_present(g, 3) {
                None
            } else {
                let label = trim(group_text(g, 3));
                if label.len() == 0 || contains_link_open(label) {
                    None
                } else {
                    let (anchors, link_label) = spec_split_leading_inline_anchors(label);
                    match spec_label_target(m, g, link_label) {
                        Some(t) => Some(linked_list_line(g, anchors, link_label, t)),
                        None => None,
                    }
                }
            }
        },
    }
}

fn lookup_target(targets: &TextMap<Option<String>>, key: &str) -> (r: Option<String>)
    ensures
        opt_view(r) == target_of(tmv(targets@), key@),
{
    match targets.get(key) {
        Some(v) => clone_opt_string(v),
        None => None,
    }
}

fn build_linked_line(groups: &Vec<Option<String>>, anchors: &str, label: &str, target: &str) -> (r: String)
    ensures
        r@ == linked_list_line(groups_view(groups@), anchors@, label@, target@),
{
    let mut out = group_of(groups, 1);
    append_chars(&mut out, &group_of(groups, 2));
    push_str(&mut out, anchors);
    out.push('[');
    push_str(&mut out, escape_markdown_link_text(label).as_str());
    out.push(']');
    out.push('(');
    push_str(&mut out, target);
    out.push(')');
    assert(out@ =~= linked_list_line(groups_view(groups@), anchors@, label@, target@));
    string_of(&out)
}

fn has_link_open(v: &Vec<char>) -> (r: bool)
    ensures
        r == contains_link_open(v@),
{
    let pat = vec![']', '('];
    assert(pat@ =~= seq![']', '(']);
    find_chars_from(v, &pat, 0).is_some()
}

pub fn link_plain_toc_list_line(line: &str, targets: &TextMap<Option<String>>) -> (r: Option<String>)
    ensures
        opt_view(r) == spec_link_plain_toc_list_line(line@, tmv(targets@)),
{
    let groups = match markdown_list_line_captures(line) {
        Some(g) => g,
        None => return None,
    };
    let ghost g = groups_view(groups@);
    if !(3 < groups.len() && groups[3].is_some()) {
        return None;
    }
    let label = trim_chars(&group_of(&groups, 3));
    if label.len() == 0 || has_link_open(&label) {
        return None;
    }
    let (anchors, link_label) = split_leading_inline_anchors(string_of(&label).as_str());
    let marker = trim_chars(&group_of(&groups, 2));
    let numbered_key = if marker.len() > 0 && '0' <= marker[0] && marker[0] <= '9' {
        let mut k = marker;
        k.push(' ');
        push_str(&mut k, link_label.as_str());
        normalize_toc_lookup_text(string_of(&k).as_str())
    } else {
        String::new()
    };
    let target = match lookup_target(targets, numbered_key.as_str()) {
        Some(t) => t,
        None => match lookup_target(targets, normalize_toc_lookup_text(link_label.as_str()).as_str()) {
            Some(t) => t,
            None => {
                let stripped = strip_leading_section_number(link_label.as_str());
                match lookup_target(targets, normalize_toc_lookup_text(stripped.as_str()).as_str()) {
                    Some(t) => t,
                    None => return None,
                }
            },
        },
    };
    proof {
        reveal_strlit("");
    }
    Some(build_linked_line(&groups, anchors.as_str(), link_label.as_str(), target.as_str()))
}

/// A nested plain list line linked to its parent's target.
pub open spec fn spec_fallback_parent_line(line: Seq<char>, parent: Option<Seq<char>>) -> Option<Seq<char>> {
    if spec_list_line_indent(line) == 0 {
        None
    } else {
        match parent {
            None => None,
            Some(t) => match regex_first_captures(list_line_pattern(), line) {
                None => None,
                Some(g) => {
                    if !group_present(g, 3) {
                        None
                    } else {
                        let label = trim(group_text(g, 3));
                        if label.len() == 0 || contains_link_open(label) {
                            None
                        } else {
                            let (anchors, link_label) = spec_split_leading_inline_anchors(label);
                            Some(linked_list_line(g, anchors, link_label, t))
                        }
                    }
                },
            },
        }
    }
}

pub fn fallback_parent_toc_list_line(line: &str, parent_target: &Option<String>) -> (r: Option<String>)
    ensures
        opt_view(r) == spec_fallback_parent_line(line@, opt_view(*parent_target)),
{
    if list_line_indent(line) == 0 {
        return None;
    }
    let target = match parent_target {
        Some(t) => t,
        None => return None,
    };
    let groups = match markdown_list_line_captures(line) {
        Some(g) => g,
        None => return None,
    };
    if !(3 < groups.len() && groups[3].is_some()) {
        return None;
    }
    let label = trim_chars(&group_of(&groups, 3));
    if label.len() == 0 || has_link_open(&label) {
        return None;
    }
    let (anchors, link_label) = split_leading_inline_anchors(string_of(&label).as_str());
    Some(build_linked_line(&groups, anchors.as_str(), link_label.as_str(), target.as_str()))
}


/// Where the scan of a chapter's opening table of contents stands.
pub struct TocScan {
    pub seen_primary_heading: bool,
    pub active_toc_block: bool,
    pub list_items_seen: usize,
    pub done: bool,
    pub current_top_level_target: Option<String>,
}

pub struct TocScanView {
    pub seen_primary_heading: bool,
    pub active_toc_block: bool,
    pub list_items_seen: nat,
    pub done: bool,
    pub current_top_level_target: Option<Seq<char>>,
}

pub open spec fn scan_view(s: TocScan) -> TocScanView {
    TocScanView {
        seen_primary_heading: s.seen_primary_heading,
        active_toc_block: s.active_toc_block,
        list_items_seen: s.list_items_seen as nat,
        done: s.done,
        current_top_level_target: opt_view(s.current_top_level_target),
    }
}

pub open spec fn starts_h1(t: Seq<char>) -> bool {
    t.len() >= 2 && t[0] == '#' && t[1] == ' '
}

/// The target a linked top-level line sets for the lines nested under it.
pub open spec fn next_parent(line: Seq<char>, linked: Option<Seq<char>>, current: Option<Seq<char>>) -> Option<Seq<char>> {
    if spec_list_line_indent(line) == 0 {
        match linked {
            Some(l) => match spec_markdown_link_target(l) {
                Some(t) => Some(t),
                None => current,
            },
            None => current,
        }
    } else {
        current
    }
}

pub open spec fn out_line(line: Seq<char>, linked: Option<Seq<char>>) -> Seq<char> {
    match linked {
        Some(l) => l,
        None => line,
    }
}

/// One line of the scan: the next state and the line to write.
pub open spec fn toc_step(st: TocScanView, line: Seq<char>, m: Map<Seq<char>, Option<Seq<char>>>) -> (TocScanView, Seq<char>) {
    let t = trim(line);
    if st.done {
        (st, line)
    } else if !st.seen_primary_heading {
        (TocScanView { seen_primary_heading: starts_h1(t), ..st }, line)
    } else if st.active_toc_block {
        if spec_is_list_line(line) {
            let linked = match spec_link_plain_toc_list_line(line, m) {
                Some(l) => Some(l),
                None => spec_fallback_parent_line(line, st.current_top_level_target),
            };
            (TocScanView {
                list_items_seen: st.list_items_seen + 1,
                current_top_level_target: next_parent(line, linked, st.current_top_level_target),
                ..st
            }, out_line(line, linked))
        } else if t.len() == 0 || spec_standalone_anchor_ids(t).len() > 0 {
            (st, line)
        } else if spec_is_heading_line(t) {
            (TocScanView { done: true, ..st }, line)
        } else if st.list_items_seen >= 3 {
            (TocScanView { done: true, ..st }, line)
        } else {
            (TocScanView { active_toc_block: false, list_items_seen: 0, ..st }, line)
        }
    } else if spec_is_subheading_line(t) {
        (TocScanView { done: true, ..st }, line)
    } else if spec_is_list_line(line) {
        let linked = spec_link_plain_toc_list_line(line, m);
        (TocScanView {
            active_toc_block: true,
            list_items_seen: 1,
            current_top_level_target: next_parent(line, linked, st.current_top_level_target),
            ..st
        }, out_line(line, linked))
    } else {
        (st, line)
    }
}

pub open spec fn initial_scan() -> TocScanView {
    TocScanView {
        seen_primary_heading: false,
        active_toc_block: false,
        list_items_seen: 0,
        done: false,
        current_top_level_target: None,
    }
}

/// The scan over the lines: final state and the written lines.
pub open spec fn toc_scan(lines: Seq<Seq<char>>, m: Map<Seq<char>, Option<Seq<char>>>) -> (TocScanView, Seq<Seq<char>>)
    decreases lines.len(),
{
    if lines.len() == 0 {
        (initial_scan(), Seq::<Seq<char>>::empty())
    } else {
        let (st, out) = toc_scan(lines.drop_last(), m);
        let (st2, l) = toc_step(st, lines.last(), m);
        (st2, out.push(l))
    }
}

/// The chapter with the plain entries of its opening table of contents
/// linked to their targets.
pub open spec fn spec_link_plain_frontmatter(markdown: Seq<char>, m: Map<Seq<char>, Option<Seq<char>>>) -> Seq<char> {
    if m.dom().len() == 0 {
        markdown
    } else {
        let joined = join_seq(toc_scan(spec_lines(markdown), m).1, seq!['\n']);
        if markdown.len() > 0 && markdown.last() == '\n' { joined.push('\n') } else { joined }
    }
}

fn update_parent(line: &str, linked: &Option<String>, current: &mut Option<String>)
    ensures
        opt_view(*final(current)) == next_parent(line@, opt_view(*linked), opt_view(*old(current))),
{
    if list_line_indent(line) == 0 {
        if let Some(l) = linked {
            if let Some(t) = markdown_link_target(l.as_str()) {
                *current = Some(t);
            }
        }
    }
}

fn toc_line_step(st: &mut TocScan, line: &Vec<char>, targets: &TextMap<Option<String>>) -> (r: Vec<char>)
    requires
        old(st).list_items_seen < usize::MAX,
    ensures
        (scan_view(*final(st)), r@) == toc_step(scan_view(*old(st)), line@, tmv(targets@)),
        final(st).list_items_seen <= old(st).list_items_seen + 1,
{
    let text = string_of(line);
    let t = trim_chars(line);
    let tstr = string_of(&t);
    if st.done {
        return sub_chars(line, 0, line.len());
    }
    if !st.seen_primary_heading {
        st.seen_primary_heading = t.len() >= 2 && t[0] == '#' && t[1] == ' ';
        return sub_chars(line, 0, line.len());
    }
    if st.active_toc_block {
        if is_markdown_list_line(text.as_str()) {
            st.list_items_seen += 1;
            let linked = match link_plain_toc_list_line(text.as_str(), targets) {
                Some(l) => Some(l),
                None => fallback_parent_toc_list_line(text.as_str(), &st.current_top_level_target),
            };
            update_parent(text.as_str(), &linked, &mut st.current_top_level_target);
            return match linked {
                Some(l) => chars_of(l.as_str()),
                None => sub_chars(line, 0, line.len()),
            };
        }
        if t.len() == 0 || is_standalone_anchor_line(tstr.as_str()) {
            return sub_chars(line, 0, line.len());
        }
        if is_markdown_heading_line(tstr.as_str()) {
            st.done = true;
            return sub_chars(line, 0, line.len());
        }
        if st.list_items_seen >= 3 {
            st.done = true;
        } else {
            st.active_toc_block = false;
            st.list_items_seen = 0;
        }
        return sub_chars(line, 0, line.len());
    }
    if is_markdown_subheading_line(tstr.as_str()) {
        st.done = true;
        return sub_chars(line, 0, line.len());
    }
    if is_markdown_list_line(text.as_str()) {
        st.active_toc_block = true;
        st.list_items_seen = 1;
        let linked = link_plain_toc_list_line(text.as_str(), targets);
        update_parent(text.as_str(), &linked, &mut st.current_top_level_target);
        return match linked {
            Some(l) => chars_of(l.as_str()),
            None => sub_chars(line, 0, line.len()),
        };
    }
    sub_chars(line, 0, line.len())
}

/// Links the plain entries of a chapter's opening table of contents.
pub fn link_plain_frontmatter_toc_entries(markdown: &str, targets: &TextMap<Option<String>>) -> (r: String)
    ensures
        r@ == spec_link_plain_frontmatter(markdown@, tmv(targets@)),
{
    if targets.is_empty() {
        assert(tmv(targets@).dom() =~= targets@.dom());
        return string_of(&chars_of(markdown));
    }
    assert(tmv(targets@).dom() =~= targets@.dom());
    let chars = chars_of(markdown);
    let lines = lines_of(&chars);
    let ghost lv = lines@.map_values(|v: Vec<char>| v@);
    let mut st = TocScan {
        seen_primary_heading: false,
        active_toc_block: false,
        list_items_seen: 0,
        done: false,
        current_top_level_target: None,
    };
    let mut out: Vec<Vec<char>> = Vec::new();
    let mut i: usize = 0;
    while i < lines.len()
        invariant
            i <= lines@.len(),
            lv == lines@.map_values(|v: Vec<char>| v@),
            st.list_items_seen <= i,
            (scan_view(st), out@.map_values(|v: Vec<char>| v@)) == toc_scan(lv.take(i as int), tmv(targets@)),
        decreases lines@.len() - i,
    {
        let ghost t = lv.take(i + 1);
        assert(t.drop_last() =~= lv.take(i as int));
        assert(t.last() == lines@[i as int]@);
        let ghost before = out@.map_values(|v: Vec<char>| v@);
        let l = toc_line_step(&mut st, &lines[i], targets);
        out.push(l);
        assert(out@.map_values(|v: Vec<char>| v@) =~= before.push(l@));
        i += 1;
    }
    assert(lv.take(lines@.len() as int) =~= lv);
    let sep = vec!['\n'];
    assert(sep@ =~= seq!['\n']);
    let mut joined = join_with(&out, &sep);
    if chars.len() > 0 && chars[chars.len() - 1] == '\n' {
        joined.push('\n');
    }
    string_of(&joined)
}


/// The link that a heading gets: the chapter file, at the anchor that
/// stands just above the heading when there is one.
pub open spec fn heading_link(file: Seq<char>, pending: Option<Seq<char>>) -> Seq<char> {
    match pending {
        Some(a) => file.push('#') + a,
        None => file,
    }
}

/// Both lookup keys of a title: the title and the title without its
/// section number.
pub open spec fn title_keys_preferred(m: Map<Seq<char>, Option<Seq<char>>>, title: Seq<char>, link: Seq<char>) -> Map<Seq<char>, Option<Seq<char>>> {
    let stripped = regex_replaced_first(section_number_pattern(), title, ""@);
    spec_insert_preferred(
        spec_insert_preferred(m, spec_normalize_toc_lookup(title), link),
        spec_normalize_toc_lookup(stripped),
        link,
    )
}

pub open spec fn title_keys_unique(m: Map<Seq<char>, Option<Seq<char>>>, title: Seq<char>, link: Seq<char>) -> Map<Seq<char>, Option<Seq<char>>> {
    let stripped = regex_replaced_first(section_number_pattern(), title, ""@);
    spec_insert_unique(
        spec_insert_unique(m, spec_normalize_toc_lookup(title), link),
        spec_normalize_toc_lookup(stripped),
        link,
    )
}

/// One line of a chapter: an anchor line sets the pending anchor, a
/// heading records its keys, and any other non-blank line clears the
/// pending anchor.
pub open spec fn heading_step(
    file: Seq<char>,
    st: (Map<Seq<char>, Option<Seq<char>>>, Option<Seq<char>>),
    line: Seq<char>,
) -> (Map<Seq<char>, Option<Seq<char>>>, Option<Seq<char>>) {
    let t = trim(line);
    let ids = spec_standalone_anchor_ids(t);
    if ids.len() > 0 {
        (st.0, Some(ids.last()))
    } else {
        let m2 = match spec_markdown_heading_title(t) {
            Some(title) => title_keys_preferred(st.0, title, heading_link(file, st.1)),
            None => st.0,
        };
        (m2, if t.len() > 0 { None } else { st.1 })
    }
}

pub open spec fn heading_scan(
    file: Seq<char>,
    lines: Seq<Seq<char>>,
    m: Map<Seq<char>, Option<Seq<char>>>,
) -> (Map<Seq<char>, Option<Seq<char>>>, Option<Seq<char>>)
    decreases lines.len(),
{
    if lines.len() == 0 {
        (m, None)
    } else {
        heading_step(file, heading_scan(file, lines.drop_last(), m), lines.last())
    }
}

/// The targets after the headings of `chapters` were added, in order.
pub open spec fn spec_heading_targets(chapters: Seq<(Seq<char>, Seq<char>, Seq<char>)>, m: Map<Seq<char>, Option<Seq<char>>>) -> Map<Seq<char>, Option<Seq<char>>>
    decreases chapters.len(),
{
    if chapters.len() == 0 {
        m
    } else {
        let c = chapters.last();
        heading_scan(c.0, spec_lines(c.2), spec_heading_targets(chapters.drop_last(), m)).0
    }
}

pub open spec fn opt_chars(o: Option<Vec<char>>) -> Option<Seq<char>> {
    match o {
        Some(v) => Some(v@),
        None => None,
    }
}

fn insert_title_keys_preferred(targets: &mut TextMap<Option<String>>, title: &str, link: &str)
    ensures
        tmv(final(targets)@) == title_keys_preferred(tmv(old(targets)@), title@, link@),
{
    insert_preferred_toc_target(targets, normalize_toc_lookup_text(title), link);
    let stripped = strip_leading_section_number(title);
    proof { reveal_strlit(""); }
    insert_preferred_toc_target(targets, normalize_toc_lookup_text(stripped.as_str()), link);
}

fn insert_title_keys_unique(targets: &mut TextMap<Option<String>>, title: &str, link: &str)
    ensures
        tmv(final(targets)@) == title_keys_unique(tmv(old(targets)@), title@, link@),
{
    insert_unique_toc_target(targets, normalize_toc_lookup_text(title), link);
    let stripped = strip_leading_section_number(title);
    insert_unique_toc_target(targets, normalize_toc_lookup_text(stripped.as_str()), link);
}

fn heading_line_step(targets: &mut TextMap<Option<String>>, pending: &mut Option<Vec<char>>, file: &str, line: &Vec<char>)
    ensures
        (tmv(final(targets)@), opt_chars(*final(pending)))
            == heading_step(file@, (tmv(old(targets)@), opt_chars(*old(pending))), line@),
{
    let t = trim_chars(line);
    let ts = string_of(&t);
    let ids = standalone_anchor_ids(ts.as_str());
    if ids.len() > 0 {
        let last = sub_chars(&ids[ids.len() - 1], 0, ids[ids.len() - 1].len());
        *pending = Some(last);
        return;
    }
    match markdown_heading_title(ts.as_str()) {
        Some(title) => {
            let mut link = chars_of(file);
            match pending {
                Some(a) => {
                    link.push('#');
                    append_chars(&mut link, a);
                },
                None => {},
            }
            let link = string_of(&link);
            let title = string_of(&title);
            insert_title_keys_preferred(targets, title.as_str(), link.as_str());
        },
        None => {},
    }
    if t.len() > 0 {
        *pending = None;
    }
}

/// Adds, for each heading of the output chapters, its title (with and
/// without section number) as a key for the chapter file or the anchor
/// just above it, unless the key already has an entry.
pub fn insert_heading_toc_targets(targets: &mut TextMap<Option<String>>, output_chapters: &[OutputChapter])
    ensures
        tmv(final(targets)@) == spec_heading_targets(out_views(output_chapters@), tmv(old(targets)@)),
{
    let ghost start = tmv(targets@);
    let ghost ov = out_views(output_chapters@);
    let mut c: usize = 0;
    while c < output_chapters.len()
        invariant
            c <= output_chapters@.len(),
            start == tmv(old(targets)@),
            ov == out_views(output_chapters@),
            tmv(targets@) == spec_heading_targets(ov.take(c as int), start),
        decreases output_chapters@.len() - c,
    {
        let ghost tc = ov.take(c + 1);
        assert(tc.drop_last() =~= ov.take(c as int));
        assert(tc.last() == out_view(output_chapters@[c as int]));
        let chapter = &output_chapters[c];
        let lines = lines_of(&chars_of(chapter.markdown.as_str()));
        let ghost lv = lines@.map_values(|v: Vec<char>| v@);
        let ghost base = tmv(targets@);
        let mut pending: Option<Vec<char>> = None;
        let mut i: usize = 0;
        while i < lines.len()
            invariant
                i <= lines@.len(),
                lv == lines@.map_values(|v: Vec<char>| v@),
                (tmv(targets@), opt_chars(pending)) == heading_scan(chapter.file_name@, lv.take(i as int), base),
            decreases lines@.len() - i,
        {
            let ghost t = lv.take(i + 1);
            assert(t.drop_last() =~= lv.take(i as int));
            assert(t.last() == lines@[i as int]@);
            heading_line_step(targets, &mut pending, chapter.file_name.as_str(), &lines[i]);
            i += 1;
        }
        assert(lv.take(lines@.len() as int) =~= lv);
        c += 1;
    }
    assert(ov.take(output_chapters@.len() as int) =~= ov);
}

/// The targets that the navigation gives: each entry that links into the
/// output contributes its title, with and without section number; a key
/// that two different links claim links nowhere.
pub open spec fn nav_targets(nav: Seq<NavPoint>, links: Map<Seq<char>, String>) -> Map<Seq<char>, Option<Seq<char>>>
    decreases nav.len(),
{
    if nav.len() == 0 {
        Map::empty()
    } else {
        let prev = nav_targets(nav.drop_last(), links);
        let p = nav.last();
        match spec_nav_point_link(p, links) {
            Some(link) => title_keys_unique(prev, p.title@, link),
            None => prev,
        }
    }
}

/// The entries with a non-empty key and a link.
pub open spec fn linked_only(m: Map<Seq<char>, Option<Seq<char>>>) -> Map<Seq<char>, Option<Seq<char>>> {
    Map::new(|k: Seq<char>| m.contains_key(k) && k.len() > 0 && m[k] is Some, |k: Seq<char>| m[k])
}

pub open spec fn spec_plain_toc_link_targets(
    nav: Seq<NavPoint>,
    links: Map<Seq<char>, String>,
    chapters: Seq<(Seq<char>, Seq<char>, Seq<char>)>,
) -> Map<Seq<char>, Option<Seq<char>>> {
    linked_only(spec_heading_targets(chapters, nav_targets(nav, links)))
}

fn keep_linked(m: &TextMap<Option<String>>) -> (r: TextMap<Option<String>>)
    ensures
        tmv(r@) == linked_only(tmv(m@)),
{
    let keys = m.keys();
    let mut r: TextMap<Option<String>> = TextMap::new();
    let mut i: usize = 0;
    while i < keys.len()
        invariant
            i <= keys@.len(),
            forall|k: Seq<char>| m@.contains_key(k) <==> exists|j: int| 0 <= j < keys@.len() && (#[trigger] keys@[j])@ == k,
            forall|k: Seq<char>| #[trigger] r@.contains_key(k) ==> linked_only(tmv(m@)).contains_key(k)
                && tmv(r@)[k] == linked_only(tmv(m@))[k],
            forall|j: int| 0 <= j < i && linked_only(tmv(m@)).contains_key((#[trigger] keys@[j])@) ==> r@.contains_key(keys@[j]@),
        decreases keys@.len() - i,
    {
        let key = &keys[i];
        if !key.as_str().is_empty() {
            match m.get(key.as_str()) {
                Some(v) => match v {
                    Some(link) => {
                        let ghost before = r@;
                        let value = Some(link.clone());
                        r.insert(key.clone(), value);
                        proof {
                            assert(r@ == before.insert(key@, value));
                        }
                    },
                    None => {},
                },
                None => {},
            }
        }
        i += 1;
    }
    proof {
        assert forall|k: Seq<char>| linked_only(tmv(m@)).contains_key(k) implies #[trigger] r@.contains_key(k) by {
            let j = choose|j: int| 0 <= j < keys@.len() && (#[trigger] keys@[j])@ == k;
        }
        assert(tmv(r@) =~= linked_only(tmv(m@)));
    }
    r
}

/// The lookup keys of the plain table-of-contents entries and the links
/// they get: from the navigation first, then from the headings of the
/// output chapters; only keys with exactly one link are kept.
pub fn plain_toc_link_targets(
    nav_points: &[NavPoint],
    chapter_links: &ChapterLinkMap,
    output_chapters: &[OutputChapter],
) -> (r: TextMap<Option<String>>)
    ensures
        tmv(r@) == spec_plain_toc_link_targets(nav_points@, chapter_links.epub_path_to_markdown@, out_views(output_chapters@)),
{
    let mut targets: TextMap<Option<String>> = TextMap::new();
    assert(tmv(targets@) =~= Map::<Seq<char>, Option<Seq<char>>>::empty());
    let mut i: usize = 0;
    while i < nav_points.len()
        invariant
            i <= nav_points@.len(),
            tmv(targets@) == nav_targets(nav_points@.take(i as int), chapter_links.epub_path_to_markdown@),
        decreases nav_points@.len() - i,
    {
        let ghost t = nav_points@.take(i + 1);
        assert(t.drop_last() =~= nav_points@.take(i as int));
        let point = &nav_points[i];
        match nav_point_markdown_link(point, chapter_links) {
            Some(link) => {
                insert_title_keys_unique(&mut targets, point.title.as_str(), link.as_str());
            },
            None => {},
        }
        i += 1;
    }
    assert(nav_points@.take(nav_points@.len() as int) =~= nav_points@);
    insert_heading_toc_targets(&mut targets, output_chapters);
    keep_linked(&targets)
}


/// The table-of-contents scan writes one line for each line, and a line
/// that is not a Markdown list line as it is.
proof fn lemma_toc_scan_keeps_lines(lines: Seq<Seq<char>>, m: Map<Seq<char>, Option<Seq<char>>>)
    ensures
        toc_scan(lines, m).1.len() == lines.len(),
        forall|k: int| 0 <= k < lines.len() && !spec_is_list_line(lines[k])
            ==> #[trigger] toc_scan(lines, m).1[k] == lines[k],
    decreases lines.len(),
{
    if lines.len() > 0 {
        lemma_toc_scan_keeps_lines(lines.drop_last(), m);
        let out = toc_scan(lines, m).1;
        let prev = toc_scan(lines.drop_last(), m).1;
        assert forall|k: int| 0 <= k < lines.len() && !spec_is_list_line(lines[k])
            implies #[trigger] out[k] == lines[k] by {
            if k < lines.len() - 1 {
                assert(out[k] == prev[k]);
                assert(lines.drop_last()[k] == lines[k]);
            }
        }
    }
}

/// Linking the opening table of contents changes only its list lines:
/// with no targets the chapter stays as it is; otherwise it keeps its
/// number of lines, and each line that is not a Markdown list line stays
/// as it is.
pub proof fn law_frontmatter_linking_keeps_other_lines(markdown: Seq<char>, m: Map<Seq<char>, Option<Seq<char>>>)
    ensures
        m.dom().len() == 0 ==> spec_link_plain_frontmatter(markdown, m) == markdown,
        m.dom().len() > 0 ==> ({
            let lines = spec_lines(markdown);
            let out = toc_scan(lines, m).1;
            &&& spec_link_plain_frontmatter(markdown, m) == (if markdown.len() > 0 && markdown.last() == '\n' {
                    join_seq(out, seq!['\n']).push('\n')
                } else {
                    join_seq(out, seq!['\n'])
                })
            &&& out.len() == lines.len()
            &&& forall|k: int| 0 <= k < lines.len() && !spec_is_list_line(lines[k]) ==> #[trigger] out[k] == lines[k]
        }),
{
    lemma_toc_scan_keeps_lines(spec_lines(markdown), m);
}

} // verus!

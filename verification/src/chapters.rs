//! Assembling the output chapters: headings for navigation targets, and
//! the Markdown of each logical chapter cut out of the spine documents.
use vstd::prelude::*;
use crate::text::{
    chars_of, string_of, sub_chars, append_chars, trim, trim_chars, trim_inline, spec_trim_inline,
    join_with, join_seq, chars_eq, str_eq, is_whitespace,
};
use crate::toc::{find_from, find_chars_from, spec_plain_toc_link_targets, plain_toc_link_targets,
    spec_link_plain_frontmatter, link_plain_frontmatter_toc_entries, tmv};
use crate::flat_toc::lemma_find_from_some;
use crate::markdown::{repeat, repeat_char};
use crate::cleanup::{spec_title_comparable_text, title_comparable_text, spec_cleanup, cleanup};
use crate::model::{
    NavPoint, ChapterData, LogicalChapterSegment, OutputChapter, SegmentView, seg_view, seg_views,
    opt_view, out_view, out_views,
};
use crate::naming::{trim_start_by};
use crate::paths::{spec_file_stem, file_stem};
use crate::segments::{max_depth, max_nav_depth, spec_is_likely_chapter_title, is_likely_logical_chapter_title};
use crate::links::ChapterLinkMap;

verus! {

broadcast use vstd::string::group_string_axioms;

/// `<a id="fragment"></a>`, the anchor that the renderer writes.
pub open spec fn anchor_marker(fragment: Seq<char>) -> Seq<char> {
    "<a id=\""@ + fragment + "\"></a>"@
}

fn anchor_marker_chars(fragment: &str) -> (r: Vec<char>)
    ensures
        r@ == anchor_marker(fragment@),
{
    proof {
        reveal_strlit("<a id=\"");
        reveal_strlit("\"></a>");
    }
    let mut m = chars_of("<a id=\"");
    append_chars(&mut m, &chars_of(fragment));
    append_chars(&mut m, &chars_of("\"></a>"));
    m
}

/// The character position of the anchor of `fragment`.
pub open spec fn anchor_char_pos(markdown: Seq<char>, fragment: Seq<char>) -> Option<nat> {
    find_from(markdown, anchor_marker(fragment), 0)
}

pub fn anchor_char_position(markdown: &Vec<char>, fragment: &str) -> (r: Option<usize>)
    ensures
        match r {
            Some(k) => anchor_char_pos(markdown@, fragment@) == Some(k as nat) && k <= markdown@.len(),
            None => anchor_char_pos(markdown@, fragment@) is None,
        },
{
    find_chars_from(markdown, &anchor_marker_chars(fragment), 0)
}

/// The byte position of the anchor of `fragment` in the Markdown.
pub fn anchor_position(markdown: &str, fragment: &str) -> (r: Option<usize>)
    ensures
        match r {
            Some(k) => anchor_char_pos(markdown@, fragment@) matches Some(c)
                && k == vstd::utf8::encode_utf8(markdown@.take(c as int)).len() as usize,
            None => anchor_char_pos(markdown@, fragment@) is None,
        },
{
    let chars = chars_of(markdown);
    match anchor_char_position(&chars, fragment) {
        Some(c) => {
            let prefix = string_of(&sub_chars(&chars, 0, c));
            assert(chars@.subrange(0, c as int) =~= markdown@.take(c as int));
            Some(prefix.as_str().len())
        },
        None => None,
    }
}

/// The first position from `i` on that is not a newline or a space.
pub open spec fn skip_blank(s: Seq<char>, i: int) -> int
    decreases s.len() - i,
{
    if 0 <= i < s.len() && (s[i] == '\n' || s[i] == ' ') { skip_blank(s, i + 1) } else { i }
}

fn skip_blank_from(s: &Vec<char>, from: usize) -> (r: usize)
    requires
        from <= s@.len(),
    ensures
        r as int == skip_blank(s@, from as int),
        from <= r <= s@.len(),
{
    let mut i = from;
    while i < s.len() && (s[i] == '\n' || s[i] == ' ')
        invariant
            from <= i <= s@.len(),
            skip_blank(s@, i as int) == skip_blank(s@, from as int),
        decreases s@.len() - i,
    {
        i += 1;
    }
    i
}

/// The end of the block that starts at `i`: the next blank line, or the
/// end of the text.
pub open spec fn block_end(s: Seq<char>, i: int) -> int {
    match find_from(s, "\n\n"@, i) {
        Some(k) => k as int,
        None => s.len() as int,
    }
}

fn block_end_from(s: &Vec<char>, from: usize) -> (r: usize)
    requires
        from <= s@.len(),
    ensures
        r as int == block_end(s@, from as int),
        from <= r <= s@.len(),
{
    proof { reveal_strlit("\n\n"); }
    let pat = chars_of("\n\n");
    proof { lemma_find_from_some(s@, pat@, from as int); }
    match find_chars_from(s, &pat, from) {
        Some(k) => k,
        None => s.len(),
    }
}

/// `"#".repeat(level)`, a space, and the title on one line.
pub open spec fn heading_line(level: nat, title: Seq<char>) -> Seq<char> {
    repeat('#', level) + seq![' '] + spec_trim_inline(title)
}

fn heading_line_chars(level: usize, title: &str) -> (r: Vec<char>)
    ensures
        r@ == heading_line(level as nat, title@),
{
    let mut h = repeat_char('#', level);
    h.push(' ');
    append_chars(&mut h, &chars_of(trim_inline(title).as_str()));
    h
}

/// The title that `markdown` gets where the anchor of `fragment` stands:
/// a heading right after the anchor, in place of the block there when
/// that block is the same title, before it otherwise; nothing changes
/// when the block is already a heading or the anchor is missing.
pub open spec fn spec_promote_anchor(markdown: Seq<char>, fragment: Seq<char>, title: Seq<char>, level: nat) -> Seq<char> {
    match anchor_char_pos(markdown, fragment) {
        None => markdown,
        Some(ms) => {
            let me: int = (ms + anchor_marker(fragment).len()) as int;
            let cs = skip_blank(markdown, me);
            let heading = heading_line(level, title);
            if cs >= markdown.len() {
                markdown + "\n\n"@ + heading
            } else {
                let ce = block_end(markdown, cs);
                let existing = trim(markdown.subrange(cs, ce));
                if existing.len() > 0 && existing[0] == '#' {
                    markdown
                } else if spec_title_comparable_text(existing) == spec_title_comparable_text(title) {
                    markdown.take(me) + "\n"@ + heading + markdown.skip(ce)
                } else {
                    markdown.take(me) + "\n"@ + heading + "\n\n"@ + markdown.skip(cs)
                }
            }
        },
    }
}

pub fn promote_anchor_to_heading(markdown: &str, fragment: &str, title: &str, level: usize) -> (r: String)
    ensures
        r@ == spec_promote_anchor(markdown@, fragment@, title@, level as nat),
{
    let md = chars_of(markdown);
    let marker = anchor_marker_chars(fragment);
    proof {
        reveal_strlit("\n\n");
        reveal_strlit("\n");
        lemma_find_from_some(md@, marker@, 0);
    }
    let ms = match find_chars_from(&md, &marker, 0) {
        Some(k) => k,
        None => return string_of(&md),
    };
    let total = md.len();
    assert(ms + marker@.len() <= md@.len() == total);
    let me = ms + marker.len();
    let cs = skip_blank_from(&md, me);
    let heading = heading_line_chars(level, title);
    if cs >= md.len() {
        let mut out = sub_chars(&md, 0, md.len());
        out.push('\n');
        out.push('\n');
        append_chars(&mut out, &heading);
        assert(out@ =~= md@ + "\n\n"@ + heading@);
        return string_of(&out);
    }
    let ce = block_end_from(&md, cs);
    let existing = trim_chars(&sub_chars(&md, cs, ce));
    if existing.len() > 0 && existing[0] == '#' {
        return string_of(&md);
    }
    let a = title_comparable_text(string_of(&existing).as_str());
    let b = title_comparable_text(title);
    let mut out = sub_chars(&md, 0, me);
    out.push('\n');
    append_chars(&mut out, &heading);
    if str_eq(a.as_str(), b.as_str()) {
        append_chars(&mut out, &sub_chars(&md, ce, md.len()));
        assert(out@ =~= md@.take(me as int) + "\n"@ + heading@ + md@.skip(ce as int));
    } else {
        out.push('\n');
        out.push('\n');
        append_chars(&mut out, &sub_chars(&md, cs, md.len()));
        assert(out@ =~= md@.take(me as int) + "\n"@ + heading@ + "\n\n"@ + md@.skip(cs as int));
    }
    string_of(&out)
}

proof fn lemma_skip_blank_bounds(s: Seq<char>, i: int)
    requires
        0 <= i <= s.len(),
    ensures
        i <= skip_blank(s, i) <= s.len(),
    decreases s.len() - i,
{
    if i < s.len() && (s[i] == '\n' || s[i] == ' ') {
        lemma_skip_blank_bounds(s, i + 1);
    }
}

/// Where the anchor of `fragment` ends in `markdown`, when it is there.
pub open spec fn anchor_end(markdown: Seq<char>, fragment: Seq<char>) -> int {
    match anchor_char_pos(markdown, fragment) {
        Some(ms) => (ms + anchor_marker(fragment).len()) as int,
        None => 0,
    }
}

/// The first block of text after the anchor, trimmed.
pub open spec fn block_after_anchor(markdown: Seq<char>, fragment: Seq<char>) -> Seq<char> {
    let cs = skip_blank(markdown, anchor_end(markdown, fragment));
    trim(markdown.subrange(cs, block_end(markdown, cs)))
}

/// Promoting an anchor to a heading loses no text.  Without the anchor
/// the Markdown is unchanged.  With it, everything up to the end of the
/// anchor is kept as it was.  Unless the first block after the anchor is
/// the title itself (which the heading then stands in for), the text after
/// the anchor is kept whole from its first character that is not blank;
/// and when that block is neither a heading nor the title, the result is
/// the text up to the anchor's end, a newline, a line of `level` '#'s, a
/// space and the title, a blank line, and that rest of the text.  When the
/// block is the title, the heading line takes its place and the text after
/// the block follows; when only blank text follows the anchor, the heading
/// comes after the whole text and a blank line.
pub proof fn law_promoted_anchor_keeps_text(markdown: Seq<char>, fragment: Seq<char>, title: Seq<char>, level: nat)
    ensures
        anchor_char_pos(markdown, fragment) is None ==> spec_promote_anchor(markdown, fragment, title, level) == markdown,
        anchor_char_pos(markdown, fragment) is Some ==> {
            &&& anchor_end(markdown, fragment) <= spec_promote_anchor(markdown, fragment, title, level).len()
            &&& spec_promote_anchor(markdown, fragment, title, level).take(anchor_end(markdown, fragment))
                == markdown.take(anchor_end(markdown, fragment))
        },
        anchor_char_pos(markdown, fragment) is Some
            && !(skip_blank(markdown, anchor_end(markdown, fragment)) < markdown.len()
                && !(block_after_anchor(markdown, fragment).len() > 0 && block_after_anchor(markdown, fragment)[0] == '#')
                && spec_title_comparable_text(block_after_anchor(markdown, fragment)) == spec_title_comparable_text(title))
            ==> {
                let rest = markdown.skip(skip_blank(markdown, anchor_end(markdown, fragment)));
                let r = spec_promote_anchor(markdown, fragment, title, level);
                rest.len() <= r.len() && r.skip(r.len() - rest.len()) == rest
            },
        anchor_char_pos(markdown, fragment) is Some
            && skip_blank(markdown, anchor_end(markdown, fragment)) < markdown.len()
            && !(block_after_anchor(markdown, fragment).len() > 0 && block_after_anchor(markdown, fragment)[0] == '#')
            && spec_title_comparable_text(block_after_anchor(markdown, fragment)) != spec_title_comparable_text(title)
            ==> spec_promote_anchor(markdown, fragment, title, level)
                == markdown.take(anchor_end(markdown, fragment)) + seq!['\n'] + repeat('#', level) + seq![' ']
                    + spec_trim_inline(title) + seq!['\n', '\n'] + markdown.skip(skip_blank(markdown, anchor_end(markdown, fragment))),
        anchor_char_pos(markdown, fragment) is Some
            && skip_blank(markdown, anchor_end(markdown, fragment)) < markdown.len()
            && !(block_after_anchor(markdown, fragment).len() > 0 && block_after_anchor(markdown, fragment)[0] == '#')
            && spec_title_comparable_text(block_after_anchor(markdown, fragment)) == spec_title_comparable_text(title)
            ==> spec_promote_anchor(markdown, fragment, title, level)
                == markdown.take(anchor_end(markdown, fragment)) + seq!['\n'] + repeat('#', level) + seq![' ']
                    + spec_trim_inline(title)
                    + markdown.skip(block_end(markdown, skip_blank(markdown, anchor_end(markdown, fragment)))),
        anchor_char_pos(markdown, fragment) is Some
            && skip_blank(markdown, anchor_end(markdown, fragment)) >= markdown.len()
            ==> spec_promote_anchor(markdown, fragment, title, level)
                == markdown + seq!['\n', '\n'] + repeat('#', level) + seq![' '] + spec_trim_inline(title),
{
    reveal_strlit("\n\n");
    reveal_strlit("\n");
    lemma_find_from_some(markdown, anchor_marker(fragment), 0);
    match anchor_char_pos(markdown, fragment) {
        None => {},
        Some(ms) => {
            let me = anchor_end(markdown, fragment);
            lemma_skip_blank_bounds(markdown, me);
            let cs = skip_blank(markdown, me);
            let heading = heading_line(level, title);
            let r = spec_promote_anchor(markdown, fragment, title, level);
            let rest = markdown.skip(cs);
            assert("\n"@ =~= seq!['\n']);
            assert("\n\n"@ =~= seq!['\n', '\n']);
            if cs >= markdown.len() {
                assert(r == markdown + "\n\n"@ + heading);
                assert(r =~= markdown + seq!['\n', '\n'] + repeat('#', level) + seq![' '] + spec_trim_inline(title));
                assert(r.take(me) =~= markdown.take(me));
                assert(rest =~= Seq::<char>::empty());
                assert(r.skip(r.len() - rest.len()) =~= rest);
            } else {
                let ce = block_end(markdown, cs);
                let existing = trim(markdown.subrange(cs, ce));
                assert(existing == block_after_anchor(markdown, fragment));
                if existing.len() > 0 && existing[0] == '#' {
                    assert(r == markdown);
                    assert(r.skip(r.len() - rest.len()) =~= rest);
                } else if spec_title_comparable_text(existing) == spec_title_comparable_text(title) {
                    assert(r == markdown.take(me) + "\n"@ + heading + markdown.skip(ce));
                    assert(r.take(me) =~= markdown.take(me));
                    assert(r =~= markdown.take(me) + seq!['\n'] + repeat('#', level) + seq![' ']
                        + spec_trim_inline(title) + markdown.skip(ce));
                } else {
                    assert(r == markdown.take(me) + "\n"@ + heading + "\n\n"@ + rest);
                    assert(r.take(me) =~= markdown.take(me));
                    assert(r.skip(r.len() - rest.len()) =~= rest);
                    assert(r =~= markdown.take(me) + seq!['\n'] + repeat('#', level) + seq![' ']
                        + spec_trim_inline(title) + seq!['\n', '\n'] + rest);
                }
            }
        },
    }
}

/// The title that the start of `markdown` gets, under the same rules.
pub open spec fn spec_promote_start(markdown: Seq<char>, title: Seq<char>, level: nat) -> Seq<char> {
    let cs = skip_blank(markdown, 0);
    let heading = heading_line(level, title);
    if cs >= markdown.len() {
        heading
    } else {
        let ce = block_end(markdown, cs);
        let existing = trim(markdown.subrange(cs, ce));
        if existing.len() > 0 && existing[0] == '#' {
            markdown
        } else if spec_title_comparable_text(existing) == spec_title_comparable_text(title) {
            markdown.take(cs) + heading + markdown.skip(ce)
        } else {
            markdown.take(cs) + heading + "\n\n"@ + markdown.skip(cs)
        }
    }
}

pub fn promote_start_to_heading(markdown: &str, title: &str, level: usize) -> (r: String)
    ensures
        r@ == spec_promote_start(markdown@, title@, level as nat),
{
    let md = chars_of(markdown);
    proof { reveal_strlit("\n\n"); }
    let cs = skip_blank_from(&md, 0);
    let heading = heading_line_chars(level, title);
    if cs >= md.len() {
        return string_of(&heading);
    }
    let ce = block_end_from(&md, cs);
    let existing = trim_chars(&sub_chars(&md, cs, ce));
    if existing.len() > 0 && existing[0] == '#' {
        return string_of(&md);
    }
    let a = title_comparable_text(string_of(&existing).as_str());
    let b = title_comparable_text(title);
    let mut out = sub_chars(&md, 0, cs);
    append_chars(&mut out, &heading);
    if str_eq(a.as_str(), b.as_str()) {
        append_chars(&mut out, &sub_chars(&md, ce, md.len()));
        assert(out@ =~= md@.take(cs as int) + heading@ + md@.skip(ce as int));
    } else {
        out.push('\n');
        out.push('\n');
        append_chars(&mut out, &sub_chars(&md, cs, md.len()));
        assert(out@ =~= md@.take(cs as int) + heading@ + "\n\n"@ + md@.skip(cs as int));
    }
    string_of(&out)
}

pub open spec fn clamp_level(l: nat) -> nat {
    if l < 1 { 1 } else if l > 6 { 6 } else { l }
}

/// The heading level of a navigation entry.
pub open spec fn nav_level(p: NavPoint, max_depth: nat) -> nat {
    clamp_level(
        if max_depth > 1 {
            p.depth as nat
        } else if spec_is_likely_chapter_title(p.title@) {
            1
        } else {
            2
        },
    )
}

/// The fragment under which an entry is counted once: the document start
/// counts as the empty fragment.
pub open spec fn fragment_key(p: NavPoint) -> Seq<char> {
    match p.fragment {
        Some(f) => f@,
        None => Seq::<char>::empty(),
    }
}

pub open spec fn promote_step(st: (Seq<char>, Set<Seq<char>>), p: NavPoint, path: Seq<char>, max_depth: nat) -> (Seq<char>, Set<Seq<char>>) {
    if p.epub_path@ != path || st.1.contains(fragment_key(p)) {
        st
    } else {
        let level = nav_level(p, max_depth);
        let md = match p.fragment {
            Some(f) => spec_promote_anchor(st.0, f@, p.title@, level),
            None => spec_promote_start(st.0, p.title@, level),
        };
        (md, st.1.insert(fragment_key(p)))
    }
}

pub open spec fn promote_scan(markdown: Seq<char>, nav: Seq<NavPoint>, path: Seq<char>, max_depth: nat) -> (Seq<char>, Set<Seq<char>>)
    decreases nav.len(),
{
    if nav.len() == 0 {
        (markdown, Set::empty())
    } else {
        promote_step(promote_scan(markdown, nav.drop_last(), path, max_depth), nav.last(), path, max_depth)
    }
}

/// The document's Markdown with a heading for each navigation entry that
/// points into it, the first entry for each anchor winning.
pub open spec fn spec_promote_navigation_targets(markdown: Seq<char>, path: Seq<char>, nav: Seq<NavPoint>) -> Seq<char> {
    promote_scan(markdown, nav, path, max_depth(nav)).0
}

proof fn lemma_push_to_set(s: Seq<Seq<char>>, x: Seq<char>)
    ensures
        s.push(x).to_set() == s.to_set().insert(x),
{
    assert forall|y: Seq<char>| s.push(x).to_set().contains(y) <==> s.to_set().insert(x).contains(y) by {
        if s.push(x).contains(y) {
            let j = choose|j: int| 0 <= j < s.push(x).len() && s.push(x)[j] == y;
            if j < s.len() {
                assert(s[j] == y);
            }
        }
        if s.contains(y) {
            let j = choose|j: int| 0 <= j < s.len() && s[j] == y;
            assert(s.push(x)[j] == y);
        }
        if y == x {
            assert(s.push(x)[s.len() as int] == x);
        }
    }
    assert(s.push(x).to_set() =~= s.to_set().insert(x));
}

fn seen_contains(seen: &Vec<Vec<char>>, key: &Vec<char>) -> (r: bool)
    ensures
        r == seen@.map_values(|v: Vec<char>| v@).to_set().contains(key@),
{
    let ghost sv = seen@.map_values(|v: Vec<char>| v@);
    let mut i: usize = 0;
    while i < seen.len()
        invariant
            i <= seen@.len(),
            sv == seen@.map_values(|v: Vec<char>| v@),
            forall|j: int| 0 <= j < i ==> sv[j] != key@,
        decreases seen@.len() - i,
    {
        if chars_eq(&seen[i], key) {
            assert(sv.contains(key@)) by { assert(sv[i as int] == key@); }
            return true;
        }
        i += 1;
    }
    assert(!sv.contains(key@));
    false
}

pub fn promote_navigation_targets_to_headings(markdown: String, epub_path: &str, nav_points: &[NavPoint]) -> (r: String)
    ensures
        r@ == spec_promote_navigation_targets(markdown@, epub_path@, nav_points@),
{
    let deepest = max_nav_depth(nav_points);
    let mut md = markdown;
    let mut seen: Vec<Vec<char>> = Vec::new();
    let mut i: usize = 0;
    assert(seen@.map_values(|v: Vec<char>| v@).to_set() =~= Set::<Seq<char>>::empty());
    while i < nav_points.len()
        invariant
            i <= nav_points@.len(),
            deepest == max_depth(nav_points@),
            (md@, seen@.map_values(|v: Vec<char>| v@).to_set())
                == promote_scan(markdown@, nav_points@.take(i as int), epub_path@, deepest as nat),
        decreases nav_points@.len() - i,
    {
        let ghost t = nav_points@.take(i + 1);
        assert(t.drop_last() =~= nav_points@.take(i as int));
        let point = &nav_points[i];
        let key: Vec<char> = match &point.fragment {
            Some(f) => chars_of(f.as_str()),
            None => Vec::new(),
        };
        assert(key@ =~= fragment_key(*point));
        if str_eq(point.epub_path.as_str(), epub_path) && !seen_contains(&seen, &key) {
            let raw: usize = if deepest > 1 {
                point.depth
            } else if is_likely_logical_chapter_title(point.title.as_str()) {
                1
            } else {
                2
            };
            let level: usize = if raw < 1 { 1 } else if raw > 6 { 6 } else { raw };
            md = match &point.fragment {
                Some(f) => promote_anchor_to_heading(md.as_str(), f.as_str(), point.title.as_str(), level),
                None => promote_start_to_heading(md.as_str(), point.title.as_str(), level),
            };
            let ghost before = seen@.map_values(|v: Vec<char>| v@);
            seen.push(key);
            assert(seen@.map_values(|v: Vec<char>| v@) =~= before.push(key@));
            proof { lemma_push_to_set(before, key@); }
        }
        i += 1;
    }
    assert(nav_points@.take(nav_points@.len() as int) =~= nav_points@);
    md
}

pub open spec fn title_trim_char(c: char) -> bool {
    ('0' <= c && c <= '9') || c == '-' || c == '_'
}

/// The title of a chapter known only by its file name: the file stem
/// without its leading number.
pub open spec fn spec_fallback_chapter_title(file_name: Seq<char>) -> Seq<char> {
    let stem = match spec_file_stem(file_name) {
        Some(s) => s,
        None => file_name,
    };
    trim_start_by(stem, |c: char| title_trim_char(c))
}

pub fn fallback_chapter_title(file_name: &str) -> (r: String)
    ensures
        r@ == spec_fallback_chapter_title(file_name@),
{
    let stem = match file_stem(file_name) {
        Some(s) => s,
        None => chars_of(file_name),
    };
    let mut i: usize = 0;
    assert(stem@.skip(0) =~= stem@);
    while i < stem.len() && (('0' <= stem[i] && stem[i] <= '9') || stem[i] == '-' || stem[i] == '_')
        invariant
            i <= stem@.len(),
            trim_start_by(stem@.skip(i as int), |c: char| title_trim_char(c))
                == trim_start_by(stem@, |c: char| title_trim_char(c)),
        decreases stem@.len() - i,
    {
        assert(stem@.skip(i as int).drop_first() =~= stem@.skip(i + 1));
        i += 1;
    }
    let rest = sub_chars(&stem, i, stem.len());
    assert(rest@ =~= stem@.skip(i as int));
    string_of(&rest)
}

/// Where segment `k` starts in spine document `si`.
pub open spec fn piece_start(spine: Seq<char>, segs: Seq<SegmentView>, k: int, si: int) -> int {
    if si == segs[k].spine_index && k != 0 {
        match segs[k].fragment {
            Some(f) => match anchor_char_pos(spine, f) {
                Some(p) => p as int,
                None => 0,
            },
            None => 0,
        }
    } else {
        0
    }
}

/// Where segment `k` ends in spine document `si`: at the next segment's
/// anchor when the next segment starts in this document.
pub open spec fn piece_end(spine: Seq<char>, segs: Seq<SegmentView>, k: int, si: int) -> int {
    if k + 1 < segs.len() && si == segs[k + 1].spine_index {
        match segs[k + 1].fragment {
            Some(f) => match anchor_char_pos(spine, f) {
                Some(p) => p as int,
                None => spine.len() as int,
            },
            None => 0,
        }
    } else {
        spine.len() as int
    }
}

/// The part of spine document `si` that belongs to segment `k`, trimmed.
pub open spec fn seg_piece(spines: Seq<Seq<char>>, segs: Seq<SegmentView>, k: int, si: int) -> Seq<char> {
    if si < 0 || si >= spines.len() {
        Seq::<char>::empty()
    } else {
        let spine = spines[si];
        let start = piece_start(spine, segs, k, si);
        let end = piece_end(spine, segs, k, si);
        if end <= start { Seq::<char>::empty() } else { trim(spine.subrange(start, end)) }
    }
}

/// The non-empty pieces of spine documents `lo..n` for segment `k`.
pub open spec fn seg_pieces(spines: Seq<Seq<char>>, segs: Seq<SegmentView>, k: int, lo: int, n: int) -> Seq<Seq<char>>
    decreases n - lo,
{
    if n <= lo {
        Seq::<Seq<char>>::empty()
    } else {
        let p = seg_pieces(spines, segs, k, lo, n - 1);
        let piece = seg_piece(spines, segs, k, n - 1);
        if piece.len() == 0 { p } else { p.push(piece) }
    }
}

/// The last spine document that segment `k` reaches into.
pub open spec fn seg_last_spine(spines: Seq<Seq<char>>, segs: Seq<SegmentView>, k: int) -> int {
    if k + 1 < segs.len() {
        segs[k + 1].spine_index as int
    } else if spines.len() == 0 {
        0
    } else {
        spines.len() - 1
    }
}

/// The Markdown of segment `k` before clean-up.
pub open spec fn segment_markdown(spines: Seq<Seq<char>>, segs: Seq<SegmentView>, k: int) -> Seq<char> {
    let pieces = seg_pieces(spines, segs, k, segs[k].spine_index as int, seg_last_spine(spines, segs, k) + 1);
    let md = join_seq(pieces, "\n\n"@);
    if trim(md).len() == 0 { "# "@ + segs[k].title } else { md }
}

/// The output chapters before their tables of contents are linked.
pub open spec fn base_outputs(chapters: Seq<ChapterData>, spines: Seq<Seq<char>>, segs: Seq<SegmentView>) -> Seq<(Seq<char>, Seq<char>, Seq<char>)> {
    if segs.len() == 0 {
        let n = if chapters.len() < spines.len() { chapters.len() } else { spines.len() };
        Seq::new(n, |i: int| (
            chapters[i].file_name@,
            match opt_view(chapters[i].title) {
                Some(t) => t,
                None => spec_fallback_chapter_title(chapters[i].file_name@),
            },
            spines[i],
        ))
    } else {
        Seq::new(segs.len(), |k: int| (segs[k].file_name, segs[k].title, spec_cleanup(segment_markdown(spines, segs, k))))
    }
}

/// The output chapters: one per spine document, or one per logical
/// segment (cut at the segments' anchors and cleaned up); then their
/// opening tables of contents are linked to the chapters.
pub open spec fn spec_output_chapters(
    chapters: Seq<ChapterData>,
    spines: Seq<Seq<char>>,
    segs: Seq<SegmentView>,
    nav: Seq<NavPoint>,
    links: Map<Seq<char>, String>,
) -> Seq<(Seq<char>, Seq<char>, Seq<char>)> {
    let base = base_outputs(chapters, spines, segs);
    let targets = spec_plain_toc_link_targets(nav, links, base);
    base.map_values(|c: (Seq<char>, Seq<char>, Seq<char>)| (c.0, c.1, spec_link_plain_frontmatter(c.2, targets)))
}

proof fn lemma_seg_pieces_beyond(spines: Seq<Seq<char>>, segs: Seq<SegmentView>, k: int, lo: int, n: int)
    requires
        n >= spines.len(),
    ensures
        seg_pieces(spines, segs, k, lo, n) == seg_pieces(spines, segs, k, lo, spines.len() as int),
    decreases n,
{
    if n > spines.len() && n > lo {
        lemma_seg_pieces_beyond(spines, segs, k, lo, n - 1);
    } else if n > spines.len() {
        if spines.len() as int <= lo {
        } else {
            assert(false);
        }
    }
}

proof fn lemma_seg_pieces_empty(spines: Seq<Seq<char>>, segs: Seq<SegmentView>, k: int, lo: int, n: int)
    requires
        n <= lo,
    ensures
        seg_pieces(spines, segs, k, lo, n) == Seq::<Seq<char>>::empty(),
{
}

fn segment_markdown_chars(spines: &Vec<Vec<char>>, segments: &[LogicalChapterSegment], k: usize) -> (r: Vec<char>)
    requires
        k < segments@.len(),
    ensures
        r@ == segment_markdown(spines@.map_values(|v: Vec<char>| v@), seg_views(segments@), k as int),
{
    let ghost sv = spines@.map_values(|v: Vec<char>| v@);
    let ghost gv = seg_views(segments@);
    let seg = &segments[k];
    assert(gv[k as int] == seg_view(*seg));
    let nseg = segments.len();
    let lo = seg.start.spine_index;
    assert(gv.len() == segments@.len());
    assert(sv.len() == spines@.len());
    let last: usize = if k + 1 < nseg {
        segments[k + 1].start.spine_index
    } else if spines.len() == 0 {
        0
    } else {
        spines.len() - 1
    };
    proof {
        if k + 1 < nseg {
            assert(gv[k + 1] == seg_view(segments@[k + 1]));
        }
        assert(last as int == seg_last_spine(sv, gv, k as int));
    }
    let hi: usize = if last < spines.len() { last + 1 } else { spines.len() };
    proof {
        if last >= spines.len() {
            lemma_seg_pieces_beyond(sv, gv, k as int, lo as int, last + 1);
        }
    }
    let mut pieces: Vec<Vec<char>> = Vec::new();
    let mut si: usize = lo;
    while si < hi
        invariant
            lo <= si,
            si <= hi || si == lo,
            hi <= spines@.len(),
            k < segments@.len(),
            nseg == segments@.len(),
            sv == spines@.map_values(|v: Vec<char>| v@),
            gv == seg_views(segments@),
            gv.len() == segments@.len(),
            gv[k as int] == seg_view(segments@[k as int]),
            k + 1 < segments@.len() ==> gv[k + 1] == seg_view(segments@[k + 1]),
            lo == segments@[k as int].start.spine_index,
            pieces@.map_values(|v: Vec<char>| v@) == seg_pieces(sv, gv, k as int, lo as int, si as int),
        decreases hi - si,
    {
        let spine = &spines[si];
        assert(sv[si as int] == spine@);
        let start: usize = if si == lo && k != 0 {
            match &segments[k].start.fragment {
                Some(f) => match anchor_char_position(spine, f.as_str()) {
                    Some(p) => p,
                    None => 0,
                },
                None => 0,
            }
        } else {
            0
        };
        let end: usize = if k + 1 < nseg && si == segments[k + 1].start.spine_index {
            match &segments[k + 1].start.fragment {
                Some(f) => match anchor_char_position(spine, f.as_str()) {
                    Some(p) => p,
                    None => spine.len(),
                },
                None => 0,
            }
        } else {
            spine.len()
        };
        assert(start as int == piece_start(spine@, gv, k as int, si as int));
        assert(end as int == piece_end(spine@, gv, k as int, si as int));
        if start < end {
            let piece = trim_chars(&sub_chars(spine, start, end));
            if piece.len() > 0 {
                let ghost before = pieces@.map_values(|v: Vec<char>| v@);
                pieces.push(piece);
                assert(pieces@.map_values(|v: Vec<char>| v@) =~= before.push(piece@));
            }
        }
        si += 1;
    }
    proof {
        if hi <= lo {
            lemma_seg_pieces_empty(sv, gv, k as int, lo as int, hi as int);
            lemma_seg_pieces_empty(sv, gv, k as int, lo as int, lo as int);
        }
        assert(pieces@.map_values(|v: Vec<char>| v@) == seg_pieces(sv, gv, k as int, lo as int, hi as int));
        assert(seg_pieces(sv, gv, k as int, lo as int, last + 1) == seg_pieces(sv, gv, k as int, lo as int, hi as int));
        if k + 1 < segments@.len() {
            assert(gv[k + 1] == seg_view(segments@[k + 1]));
        }
        assert(sv.len() == spines@.len());
        assert(last as int == seg_last_spine(sv, gv, k as int));
    }
    proof { reveal_strlit("\n\n"); reveal_strlit("# "); }
    let sep = chars_of("\n\n");
    let md = join_with(&pieces, &sep);
    if trim_chars(&md).len() == 0 {
        let mut h = chars_of("# ");
        append_chars(&mut h, &chars_of(seg.title.as_str()));
        h
    } else {
        md
    }
}

fn plain_outputs(chapters: &[ChapterData], converted_spines: &[String]) -> (r: Vec<OutputChapter>)
    ensures
        out_views(r@) == base_outputs(chapters@, converted_spines@.map_values(|s: String| s@), Seq::<SegmentView>::empty()),
{
    let ghost spv = converted_spines@.map_values(|s: String| s@);
    let ghost base = base_outputs(chapters@, spv, Seq::<SegmentView>::empty());
    let mut output: Vec<OutputChapter> = Vec::new();
    let n = if chapters.len() < converted_spines.len() { chapters.len() } else { converted_spines.len() };
    let mut i: usize = 0;
    while i < n
        invariant
            i <= n,
            n == (if chapters@.len() < converted_spines@.len() { chapters@.len() } else { converted_spines@.len() }),
            spv == converted_spines@.map_values(|s: String| s@),
            base == base_outputs(chapters@, spv, Seq::<SegmentView>::empty()),
            out_views(output@) == base.take(i as int),
        decreases n - i,
    {
        let chapter = &chapters[i];
        let title = match &chapter.title {
            Some(t) => t.clone(),
            None => fallback_chapter_title(chapter.file_name.as_str()),
        };
        let c = OutputChapter {
            file_name: chapter.file_name.clone(),
            title,
            markdown: converted_spines[i].clone(),
        };
        let ghost before = out_views(output@);
        output.push(c);
        assert(out_views(output@) =~= before.push(out_view(c)));
        assert(base.take(i + 1) =~= base.take(i as int).push(base[i as int]));
        i += 1;
    }
    assert(base.take(n as int) =~= base);
    output
}

fn segmented_outputs(chapters: &[ChapterData], converted_spines: &[String], segments: &[LogicalChapterSegment]) -> (r: Vec<OutputChapter>)
    requires
        segments@.len() > 0,
    ensures
        out_views(r@) == base_outputs(chapters@, converted_spines@.map_values(|s: String| s@), seg_views(segments@)),
{
    let ghost spv = converted_spines@.map_values(|s: String| s@);
    let ghost gv = seg_views(segments@);
    let ghost base = base_outputs(chapters@, spv, gv);
    let mut output: Vec<OutputChapter> = Vec::new();
    let mut spines: Vec<Vec<char>> = Vec::new();
    let mut j: usize = 0;
    while j < converted_spines.len()
        invariant
            j <= converted_spines@.len(),
            spines@.map_values(|v: Vec<char>| v@) == spv.take(j as int),
            spv == converted_spines@.map_values(|s: String| s@),
        decreases converted_spines@.len() - j,
    {
        let ghost before = spines@.map_values(|v: Vec<char>| v@);
        let c = chars_of(converted_spines[j].as_str());
        spines.push(c);
        assert(spines@.map_values(|v: Vec<char>| v@) =~= before.push(c@));
        assert(spv.take(j + 1) =~= spv.take(j as int).push(spv[j as int]));
        j += 1;
    }
    assert(spv.take(converted_spines@.len() as int) =~= spv);
    let mut k: usize = 0;
    while k < segments.len()
        invariant
            k <= segments@.len(),
            segments@.len() > 0,
            spines@.map_values(|v: Vec<char>| v@) == spv,
            gv == seg_views(segments@),
            base == base_outputs(chapters@, spv, gv),
            out_views(output@) == base.take(k as int),
        decreases segments@.len() - k,
    {
        let md = segment_markdown_chars(&spines, segments, k);
        let seg = &segments[k];
        assert(gv[k as int] == seg_view(*seg));
        let c = OutputChapter {
            file_name: seg.file_name.clone(),
            title: seg.title.clone(),
            markdown: cleanup(string_of(&md).as_str()),
        };
        let ghost before = out_views(output@);
        output.push(c);
        assert(out_views(output@) =~= before.push(out_view(c)));
        assert(base.take(k + 1) =~= base.take(k as int).push(base[k as int]));
        k += 1;
    }
    assert(base.take(segments@.len() as int) =~= base);
    output
}

pub fn output_chapters_from_spines(
    chapters: &[ChapterData],
    converted_spines: &[String],
    segments: &[LogicalChapterSegment],
    nav_points: &[NavPoint],
    chapter_links: &ChapterLinkMap,
) -> (r: Vec<OutputChapter>)
    ensures
        out_views(r@) == spec_output_chapters(
            chapters@,
            converted_spines@.map_values(|s: String| s@),
            seg_views(segments@),
            nav_points@,
            chapter_links.epub_path_to_markdown@,
        ),
{
    let ghost base = base_outputs(chapters@, converted_spines@.map_values(|s: String| s@), seg_views(segments@));
    let output = if segments.len() == 0 {
        assert(seg_views(segments@) =~= Seq::<SegmentView>::empty());
        plain_outputs(chapters, converted_spines)
    } else {
        segmented_outputs(chapters, converted_spines, segments)
    };
    assert(out_views(output@) == base);
    let targets = plain_toc_link_targets(nav_points, chapter_links, output.as_slice());
    let ghost t = tmv(targets@);
    let mut result: Vec<OutputChapter> = Vec::new();
    let mut i: usize = 0;
    while i < output.len()
        invariant
            i <= output@.len(),
            out_views(output@) == base,
            t == tmv(targets@),
            t == spec_plain_toc_link_targets(nav_points@, chapter_links.epub_path_to_markdown@, base),
            out_views(result@) == base.take(i as int).map_values(
                |c: (Seq<char>, Seq<char>, Seq<char>)| (c.0, c.1, spec_link_plain_frontmatter(c.2, t))),
        decreases output@.len() - i,
    {
        let o = &output[i];
        assert(base[i as int] == out_view(*o));
        let c = OutputChapter {
            file_name: o.file_name.clone(),
            title: o.title.clone(),
            markdown: link_plain_frontmatter_toc_entries(o.markdown.as_str(), &targets),
        };
        let ghost before = out_views(result@);
        result.push(c);
        assert(out_views(result@) =~= before.push(out_view(c)));
        assert(base.take(i + 1).map_values(
                |c: (Seq<char>, Seq<char>, Seq<char>)| (c.0, c.1, spec_link_plain_frontmatter(c.2, t)))
            =~= base.take(i as int).map_values(
                |c: (Seq<char>, Seq<char>, Seq<char>)| (c.0, c.1, spec_link_plain_frontmatter(c.2, t))).push(out_view(c)));
        i += 1;
    }
    assert(base.take(output@.len() as int) =~= base);
    result
}


/// One output chapter per logical segment, under its file name and
/// title; without segments, one per spine document, under the
/// document's file name and title (or the title its file name gives), its
/// Markdown as converted with the opening table of contents linked.
pub proof fn law_output_chapters_follow_segments(
    chapters: Seq<ChapterData>,
    spines: Seq<Seq<char>>,
    segs: Seq<SegmentView>,
    nav: Seq<NavPoint>,
    links: Map<Seq<char>, String>,
)
    ensures
        ({
            let out = spec_output_chapters(chapters, spines, segs, nav, links);
            let targets = spec_plain_toc_link_targets(nav, links, base_outputs(chapters, spines, segs));
            &&& segs.len() > 0 ==> out.len() == segs.len()
                && forall|k: int| 0 <= k < segs.len() ==> (#[trigger] out[k]).0 == segs[k].file_name
                    && out[k].1 == segs[k].title
            &&& segs.len() == 0 ==> out.len() == (if chapters.len() < spines.len() { chapters.len() } else { spines.len() })
                && forall|k: int| 0 <= k < out.len() ==> (#[trigger] out[k]).0 == chapters[k].file_name@
                    && out[k].1 == match opt_view(chapters[k].title) {
                        Some(t) => t,
                        None => spec_fallback_chapter_title(chapters[k].file_name@),
                    }
                    && out[k].2 == spec_link_plain_frontmatter(spines[k], targets)
        }),
{
}

} // verus!

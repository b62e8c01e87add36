//! The last pass over a chapter's Markdown: spacing, flat tables of
//! contents, titles written twice, with fenced code left untouched.
use vstd::prelude::*;
use crate::text::{chars_of, string_of, sub_chars, append_chars, trim, trim_chars, lines_of, spec_lines, join_with, join_seq, chars_eq};
use crate::regex_calls::{regex_match, regex_is_match, regex_replaced_first, regex_replace_first, regex_replaced_all, regex_replace_all};
use crate::flat_toc::{split_str, split_str_chars, structure_flat_toc_blocks, spec_structure_flat_toc_blocks};
use crate::fences::{protect_fenced_code_blocks, restore_fenced_code_blocks, spec_protect, spec_restore};
use crate::text::strings_view;

verus! {

broadcast use vstd::string::group_string_axioms;

pub open spec fn heading_mark_pattern() -> Seq<char> {
    r"^#{1,6}\s+"@
}

/// Whether one of the block's lines, trimmed, is a Markdown heading.
pub open spec fn spec_is_heading_block(block: Seq<char>) -> bool {
    exists|i: int| 0 <= i < spec_lines(block).len() && regex_match(heading_mark_pattern(), trim(#[trigger] spec_lines(block)[i]))
}

pub fn is_heading_block(block: &str) -> (r: bool)
    ensures
        r == spec_is_heading_block(block@),
{
    let lines = lines_of(&chars_of(block));
    let ghost lv = lines@.map_values(|v: Vec<char>| v@);
    let mut i: usize = 0;
    while i < lines.len()
        invariant
            i <= lines@.len(),
            lv == lines@.map_values(|v: Vec<char>| v@),
            lv == spec_lines(block@),
            forall|j: int| 0 <= j < i ==> !regex_match(heading_mark_pattern(), trim(#[trigger] lv[j])),
        decreases lines@.len() - i,
    {
        let t = string_of(&trim_chars(&lines[i]));
        assert(lv[i as int] == lines@[i as int]@);
        if regex_is_match(r"^#{1,6}\s+", t.as_str()) {
            return true;
        }
        i += 1;
    }
    false
}

/// The lines that are not bare `<a id="..."></a>` anchors.
pub open spec fn non_anchor_lines(lines: Seq<Seq<char>>) -> Seq<Seq<char>>
    decreases lines.len(),
{
    if lines.len() == 0 {
        lines
    } else {
        let rest = non_anchor_lines(lines.drop_last());
        if regex_match(r#"^<a\s+id="[^"]+"></a>$"#@, trim(lines.last())) { rest } else { rest.push(lines.last()) }
    }
}

/// The text by which two blocks are compared as titles: anchor lines
/// left out, heading marks, tags, emphasis marks and link targets
/// removed, whitespace collapsed.
pub open spec fn spec_title_comparable_text(block: Seq<char>) -> Seq<char> {
    let joined = join_seq(non_anchor_lines(spec_lines(block)), seq![' ']);
    let v = regex_replaced_first(heading_mark_pattern(), joined, ""@);
    let v = regex_replaced_all(r"<[^>]+>"@, v, ""@);
    let v = regex_replaced_all(r"[*_`]+"@, v, ""@);
    let v = regex_replaced_all(r"\[([^\]]+)\]\([^)]+\)"@, v, "$1"@);
    trim(regex_replaced_all(r"\s+"@, v, " "@))
}

pub fn title_comparable_text(block: &str) -> (r: String)
    ensures
        r@ == spec_title_comparable_text(block@),
{
    let lines = lines_of(&chars_of(block));
    let ghost lv = lines@.map_values(|v: Vec<char>| v@);
    let mut kept: Vec<Vec<char>> = Vec::new();
    let mut i: usize = 0;
    while i < lines.len()
        invariant
            i <= lines@.len(),
            lv == lines@.map_values(|v: Vec<char>| v@),
            kept@.map_values(|v: Vec<char>| v@) == non_anchor_lines(lv.take(i as int)),
        decreases lines@.len() - i,
    {
        let ghost t = lv.take(i + 1);
        assert(t.drop_last() =~= lv.take(i as int));
        assert(t.last() == lines@[i as int]@);
        let tr = string_of(&trim_chars(&lines[i]));
        if !regex_is_match(r#"^<a\s+id="[^"]+"></a>$"#, tr.as_str()) {
            let ghost before = kept@.map_values(|v: Vec<char>| v@);
            let line = sub_chars(&lines[i], 0, lines[i].len());
            assert(line@ =~= lines@[i as int]@);
            kept.push(line);
            assert(kept@.map_values(|v: Vec<char>| v@) =~= before.push(line@));
        }
        i += 1;
    }
    assert(lv.take(lines@.len() as int) =~= lv);
    let sep = vec![' '];
    assert(sep@ =~= seq![' ']);
    let joined = string_of(&join_with(&kept, &sep));
    let v = regex_replace_first(r"^#{1,6}\s+", joined.as_str(), "");
    let v = regex_replace_all(r"<[^>]+>", v.as_str(), "");
    let v = regex_replace_all(r"[*_`]+", v.as_str(), "");
    let v = regex_replace_all(r"\[([^\]]+)\]\([^)]+\)", v.as_str(), "$1");
    let v = regex_replace_all(r"\s+", v.as_str(), " ");
    string_of(&trim_chars(&chars_of(v.as_str())))
}

pub open spec fn min4(n: int) -> int {
    if n < 4 { n } else { 4 }
}

/// One round of the search for a title written twice among the first
/// four blocks: at `index`, the block is compared with the one before.
pub open spec fn spec_dedupe(blocks: Seq<Seq<char>>, index: int) -> Seq<Seq<char>>
    decreases 2 * blocks.len() - index,
    when 1 <= index <= blocks.len()
{
    if index >= min4(blocks.len() as int) {
        blocks
    } else {
        let previous = spec_title_comparable_text(blocks[index - 1]);
        let current = spec_title_comparable_text(blocks[index]);
        if previous.len() == 0 || previous != current {
            spec_dedupe(blocks, index + 1)
        } else {
            let previous_is_heading = spec_is_heading_block(blocks[index - 1]);
            let current_is_heading = spec_is_heading_block(blocks[index]);
            let plain_title = index == 1 && previous.len() <= 100 && current.len() <= 100;
            if !(previous_is_heading || current_is_heading || plain_title) {
                spec_dedupe(blocks, index + 1)
            } else if current_is_heading || !previous_is_heading {
                spec_dedupe(blocks.remove(index - 1), index)
            } else {
                spec_dedupe(blocks.remove(index), index)
            }
        }
    }
}

/// `f` picks the items of `a` out of `b`, in order: `a` is `b` with some
/// items left out.
pub open spec fn picks(f: Seq<int>, a: Seq<Seq<char>>, b: Seq<Seq<char>>) -> bool {
    &&& f.len() == a.len()
    &&& forall|i: int| 0 <= i < f.len() ==> 0 <= #[trigger] f[i] < b.len() && a[i] == b[f[i]]
    &&& forall|i: int, j: int| 0 <= i < j < f.len() ==> #[trigger] f[i] < #[trigger] f[j]
}

proof fn lemma_picks_remove(f: Seq<int>, a: Seq<Seq<char>>, b: Seq<Seq<char>>, r: int)
    requires
        picks(f, a, b),
        0 <= r < a.len(),
    ensures
        picks(f.remove(r), a.remove(r), b),
{
    let g = f.remove(r);
    let c = a.remove(r);
    assert forall|i: int| 0 <= i < g.len() implies 0 <= #[trigger] g[i] < b.len() && c[i] == b[g[i]] by {
        if i < r {
            assert(g[i] == f[i] && c[i] == a[i]);
        } else {
            assert(g[i] == f[i + 1] && c[i] == a[i + 1]);
        }
    }
    assert forall|i: int, j: int| 0 <= i < j < g.len() implies #[trigger] g[i] < #[trigger] g[j] by {
        let fi = if i < r { i } else { i + 1 };
        let fj = if j < r { j } else { j + 1 };
        assert(g[i] == f[fi] && g[j] == f[fj]);
        assert(f[fi] < f[fj]);
    }
}

proof fn lemma_dedupe_picks(blocks: Seq<Seq<char>>, index: int, f: Seq<int>, b: Seq<Seq<char>>)
    requires
        1 <= index <= blocks.len(),
        picks(f, blocks, b),
    ensures
        exists|g: Seq<int>| #[trigger] picks(g, spec_dedupe(blocks, index), b),
    decreases 2 * blocks.len() - index,
{
    if index >= min4(blocks.len() as int) {
        assert(picks(f, spec_dedupe(blocks, index), b));
    } else {
        let previous = spec_title_comparable_text(blocks[index - 1]);
        let current = spec_title_comparable_text(blocks[index]);
        if previous.len() == 0 || previous != current {
            lemma_dedupe_picks(blocks, index + 1, f, b);
            assert(spec_dedupe(blocks, index) == spec_dedupe(blocks, index + 1));
        } else {
            let previous_is_heading = spec_is_heading_block(blocks[index - 1]);
            let current_is_heading = spec_is_heading_block(blocks[index]);
            let plain_title = index == 1 && previous.len() <= 100 && current.len() <= 100;
            if !(previous_is_heading || current_is_heading || plain_title) {
                lemma_dedupe_picks(blocks, index + 1, f, b);
                assert(spec_dedupe(blocks, index) == spec_dedupe(blocks, index + 1));
            } else if current_is_heading || !previous_is_heading {
                lemma_picks_remove(f, blocks, b, index - 1);
                lemma_dedupe_picks(blocks.remove(index - 1), index, f.remove(index - 1), b);
                assert(spec_dedupe(blocks, index) == spec_dedupe(blocks.remove(index - 1), index));
            } else {
                lemma_picks_remove(f, blocks, b, index);
                lemma_dedupe_picks(blocks.remove(index), index, f.remove(index), b);
                assert(spec_dedupe(blocks, index) == spec_dedupe(blocks.remove(index), index));
            }
        }
    }
}

/// Removing a title written twice only leaves blocks out: the blocks that
/// stay are blocks of the chapter, in their order.
pub proof fn law_dedupe_only_removes_blocks(blocks: Seq<Seq<char>>)
    requires
        blocks.len() >= 2,
    ensures
        exists|g: Seq<int>| #[trigger] picks(g, spec_dedupe(blocks, 1), blocks),
{
    let f = Seq::new(blocks.len(), |i: int| i);
    assert(picks(f, blocks, blocks));
    lemma_dedupe_picks(blocks, 1, f, blocks);
}

/// The chapter with a title that its first blocks repeat (a heading and
/// the same text as a paragraph) written once: the heading is kept.
pub open spec fn spec_remove_duplicate_leading_titles(markdown: Seq<char>) -> Seq<char> {
    let blocks = split_str(markdown, "\n\n"@);
    if blocks.len() < 2 {
        markdown
    } else {
        join_seq(spec_dedupe(blocks, 1), "\n\n"@)
    }
}

fn remove_at(v: &mut Vec<Vec<char>>, i: usize)
    requires
        i < old(v)@.len(),
    ensures
        final(v)@.map_values(|x: Vec<char>| x@) == old(v)@.map_values(|x: Vec<char>| x@).remove(i as int),
        final(v)@.len() == old(v)@.len() - 1,
{
    let ghost before = v@;
    let _ = v.remove(i);
    assert(v@.map_values(|x: Vec<char>| x@) =~= before.map_values(|x: Vec<char>| x@).remove(i as int));
}

pub fn remove_duplicate_leading_title_blocks(markdown: &str) -> (r: String)
    ensures
        r@ == spec_remove_duplicate_leading_titles(markdown@),
{
    proof { reveal_strlit("\n\n"); }
    let sep = chars_of("\n\n");
    let mut blocks = split_str_chars(&chars_of(markdown), &sep);
    if blocks.len() < 2 {
        return string_of(&chars_of(markdown));
    }
    let ghost start = blocks@.map_values(|v: Vec<char>| v@);
    let mut index: usize = 1;
    while index < blocks.len() && index < 4
        invariant
            1 <= index <= blocks@.len(),
            spec_dedupe(blocks@.map_values(|v: Vec<char>| v@), index as int) == spec_dedupe(start, 1),
        decreases 2 * blocks@.len() - index,
    {
        let ghost bv = blocks@.map_values(|v: Vec<char>| v@);
        assert(bv[index - 1] == blocks@[index - 1]@);
        assert(bv[index as int] == blocks@[index as int]@);
        let previous = chars_of(title_comparable_text(string_of(&blocks[index - 1]).as_str()).as_str());
        let current = chars_of(title_comparable_text(string_of(&blocks[index]).as_str()).as_str());
        if previous.len() == 0 || !chars_eq(&previous, &current) {
            assert(spec_dedupe(bv, index as int) == spec_dedupe(bv, index + 1));
            index += 1;
            continue;
        }
        let previous_is_heading = is_heading_block(string_of(&blocks[index - 1]).as_str());
        let current_is_heading = is_heading_block(string_of(&blocks[index]).as_str());
        let plain_title = index == 1 && previous.len() <= 100 && current.len() <= 100;
        if !(previous_is_heading || current_is_heading || plain_title) {
            assert(spec_dedupe(bv, index as int) == spec_dedupe(bv, index + 1));
            index += 1;
            continue;
        }
        if current_is_heading || !previous_is_heading {
            assert(spec_dedupe(bv, index as int) == spec_dedupe(bv.remove(index - 1), index as int));
            remove_at(&mut blocks, index - 1);
        } else {
            assert(spec_dedupe(bv, index as int) == spec_dedupe(bv.remove(index as int), index as int));
            remove_at(&mut blocks, index);
        }
    }
    proof {
        let bv = blocks@.map_values(|v: Vec<char>| v@);
        assert(spec_dedupe(bv, index as int) == bv);
    }
    string_of(&join_with(&blocks, &sep))
}

/// The clean-up: outside fenced code, runs of spaces and tabs become one
/// space, flat tables of contents become lists, three or more newlines
/// become two, and a title written twice at the start is written once;
/// the result is trimmed and ends with one newline.
pub open spec fn spec_cleanup(markdown: Seq<char>) -> Seq<char> {
    let (protected, blocks) = spec_protect(markdown);
    let v = regex_replaced_all(r"[ \t]+"@, protected, " "@);
    let v = spec_structure_flat_toc_blocks(v);
    let v = regex_replaced_all(r"\n{3,}"@, v, "\n\n"@);
    let v = spec_remove_duplicate_leading_titles(v);
    let v = spec_restore(v, blocks);
    trim(v).push('\n')
}

pub fn cleanup(markdown: &str) -> (r: String)
    ensures
        r@ == spec_cleanup(markdown@),
{
    let (protected, code_blocks) = protect_fenced_code_blocks(markdown);
    let v = regex_replace_all(r"[ \t]+", protected.as_str(), " ");
    let v = structure_flat_toc_blocks(v.as_str());
    let v = regex_replace_all(r"\n{3,}", v.as_str(), "\n\n");
    let v = remove_duplicate_leading_title_blocks(v.as_str());
    let v = restore_fenced_code_blocks(v.as_str(), code_blocks.as_slice());
    let mut out = trim_chars(&chars_of(v.as_str()));
    out.push('\n');
    string_of(&out)
}

} // verus!

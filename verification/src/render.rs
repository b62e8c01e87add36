//! XHTML content documents rendered as Markdown.
use vstd::prelude::*;
use crate::text::{
    chars_of, string_of, sub_chars, append_chars, trim, trim_chars, trim_inline, spec_trim_inline,
    lines_of, spec_lines, join_seq, join_with, str_eq,
};
use crate::xml::{XmlDoc, XmlKind, NodeView, children, usize_seq, desc, opt_chars, lemma_children, lemma_desc_bounds};
use crate::assets::{AssetMapper, spec_asset_link};
use crate::links::{ChapterLinkMap, spec_markdown_link};
use crate::paths::{parent_dir, spec_parent_dir};
use crate::markdown::{repeat, repeat_char, spec_fenced_code_block, fenced_code_block};
use crate::fences::{spec_replace, replace_chars};
use crate::book::{spec_is_block_element, is_block_element};
use crate::naming::{decimal, push_decimal};

verus! {

broadcast use vstd::string::group_string_axioms;

/// What the renderer needs to know besides the document: where the
/// document is, where its images went, and where its links point.
pub struct RenderContext<'a> {
    pub current_epub_path: &'a str,
    pub asset_mapper: &'a AssetMapper,
    pub chapter_links: &'a ChapterLinkMap,
}

pub struct Ctx {
    pub path: Seq<char>,
    pub assets: Map<Seq<char>, Seq<char>>,
    pub links: Map<Seq<char>, Seq<char>>,
}

pub open spec fn ctx_view(c: RenderContext) -> Ctx {
    Ctx { path: c.current_epub_path@, assets: c.asset_mapper@.links, links: c.chapter_links.view_map() }
}

pub open spec fn valid(n: Seq<NodeView>, i: int) -> bool {
    0 <= i < n.len()
}

pub open spec fn is_elem(n: Seq<NodeView>, i: int) -> bool {
    valid(n, i) && n[i].kind == XmlKind::Element
}

pub open spec fn named(n: Seq<NodeView>, i: int, s: Seq<char>) -> bool {
    is_elem(n, i) && n[i].name == s
}

pub open spec fn is_list(n: Seq<NodeView>, i: int) -> bool {
    named(n, i, "ul"@) || named(n, i, "ol"@)
}

pub open spec fn attr(n: Seq<NodeView>, i: int, name: Seq<char>) -> Option<Seq<char>> {
    if valid(n, i) { crate::xml::attribute_in(n[i].attributes, name) } else { None }
}

/// How the children of an element are rendered: as inline content, as
/// mixed content (blocks and inline runs), or each as a block.
#[derive(Clone, Copy)]
pub enum ChildRendering {
    Inline,
    Mixed,
    Blocks,
}

// The block and inline renderers hand a list item back and forth without
// end, so a list item may only be rendered by `render_list`.  The
// predicates below say that rendering a node, its children or its items
// never hands them a list item, following the renderers: `pre`, `hr`,
// `img` and `br` render no children as blocks (an inline `pre` does), a
// list renders only its items, a table with rows only its cells, and a
// navigation block without lists also its links and its first heading.
// What a list item or a navigation block reaches depends on text already
// rendered (whether the item's mixed content is blank, how many links the
// block has), so these predicates take the render context too.

/// Rendering `i` as a block meets no list item.
pub open spec fn block_safe(n: Seq<NodeView>, cx: Ctx, i: int) -> bool
    decreases n.len() - i, 7int, 0int,
{
    if !valid(n, i) {
        true
    } else {
        let name = n[i].name;
        if is_heading_name(name) || name == "p"@ {
            kids_safe(n, cx, i, ChildRendering::Inline)
        } else if name == "ul"@ || name == "ol"@ {
            items_safe(n, cx, i)
        } else if name == "blockquote"@ {
            kids_safe(n, cx, i, ChildRendering::Mixed)
        } else if name == "pre"@ || name == "hr"@ {
            true
        } else if name == "table"@ {
            table_safe(n, cx, i)
        } else if name == "nav"@ {
            nav_safe(n, cx, i)
        } else if name == "figure"@ {
            kids_safe(n, cx, i, ChildRendering::Blocks)
        } else if name == "figcaption"@ {
            kids_safe(n, cx, i, ChildRendering::Inline)
        } else if is_container_name(name) {
            kids_safe(n, cx, i, ChildRendering::Mixed)
        } else if name == "img"@ {
            true
        } else if name == "li"@ {
            false
        } else {
            inline_safe(n, cx, i)
        }
    }
}

/// Rendering `i` as an inline element meets no list item.
pub open spec fn inline_safe(n: Seq<NodeView>, cx: Ctx, i: int) -> bool
    decreases n.len() - i, 6int, 0int,
{
    if !valid(n, i) {
        true
    } else {
        let name = n[i].name;
        if name == "strong"@ || name == "b"@ || name == "em"@ || name == "i"@ || name == "code"@
            || name == "sup"@ || name == "sub"@ || name == "a"@ {
            kids_safe(n, cx, i, ChildRendering::Inline)
        } else if name == "img"@ || name == "br"@ {
            true
        } else if is_list(n, i) {
            items_safe(n, cx, i)
        } else if name == "li"@ {
            false
        } else {
            kids_safe(n, cx, i, ChildRendering::Inline)
        }
    }
}

/// A child element rendered as `how` says is no list item and renders
/// none.
pub open spec fn child_safe(n: Seq<NodeView>, cx: Ctx, c: int, how: ChildRendering) -> bool
    decreases n.len() - c, 8int, 0int,
{
    &&& !named(n, c, "li"@)
    &&& match how {
        ChildRendering::Inline => inline_safe(n, cx, c),
        ChildRendering::Mixed => if valid(n, c) && spec_is_block_element(n[c].name) { block_safe(n, cx, c) } else { inline_safe(n, cx, c) },
        ChildRendering::Blocks => block_safe(n, cx, c),
    }
}

/// Rendering the children of `i` as `how` says meets no list item.
pub open spec fn kids_safe(n: Seq<NodeView>, cx: Ctx, i: int, how: ChildRendering) -> bool
    decreases n.len() - i, 3int, 0int,
{
    kids_from(n, cx, i, how, 0)
}

pub open spec fn kids_from(n: Seq<NodeView>, cx: Ctx, i: int, how: ChildRendering, k: int) -> bool
    decreases n.len() - i, 2int, children(n, i).len() - k,
{
    if valid(n, i) && 0 <= k < children(n, i).len() {
        let c = children(n, i)[k];
        proof { lemma_children(n, i); }
        &&& (is_elem(n, c) ==> child_safe(n, cx, c, how))
        &&& kids_from(n, cx, i, how, k + 1)
    } else {
        true
    }
}

/// Rendering the items of a list meets no other list item.
pub open spec fn items_safe(n: Seq<NodeView>, cx: Ctx, i: int) -> bool
    decreases n.len() - i, 3int, 0int,
{
    items_from(n, cx, i, 0)
}

pub open spec fn items_from(n: Seq<NodeView>, cx: Ctx, i: int, k: int) -> bool
    decreases n.len() - i, 2int, children(n, i).len() - k,
{
    if valid(n, i) && 0 <= k < children(n, i).len() {
        let c = children(n, i)[k];
        proof { lemma_children(n, i); }
        &&& (named(n, c, "li"@) ==> item_safe(n, cx, c))
        &&& items_from(n, cx, i, k + 1)
    } else {
        true
    }
}

/// Rendering a list item meets no other list item: with block children
/// its mixed content, and its inline content when that comes out blank;
/// without, its inline content.
pub open spec fn item_safe(n: Seq<NodeView>, cx: Ctx, li: int) -> bool
    decreases n.len() - li, 4int, 0int,
{
    if has_block_child(n, li) {
        &&& kids_safe(n, cx, li, ChildRendering::Mixed)
        &&& trim(r_mixed(n, cx, li)).len() == 0 ==> kids_safe(n, cx, li, ChildRendering::Inline)
    } else {
        kids_safe(n, cx, li, ChildRendering::Inline)
    }
}

pub open spec fn is_cell(n: Seq<NodeView>, c: int) -> bool {
    named(n, c, "th"@) || named(n, c, "td"@)
}

/// Cell `q` of the `k`-th node under a table, when that node is a row.
pub open spec fn table_cell(n: Seq<NodeView>, i: int, k: int, q: int) -> bool {
    &&& 0 <= k < desc(n, i).len()
    &&& named(n, desc(n, i)[k], "tr"@)
    &&& 0 <= q < children(n, desc(n, i)[k]).len()
    &&& is_cell(n, children(n, desc(n, i)[k])[q])
    &&& children(n, desc(n, i)[k])[q] > i
}

/// Some row under the table has a cell.
pub open spec fn has_rows(n: Seq<NodeView>, i: int) -> bool {
    exists|k: int, q: int| #[trigger] table_cell(n, i, k, q)
}

/// Rendering a table meets no list item: its cells when it has rows,
/// else its children as inline content.
pub open spec fn table_safe(n: Seq<NodeView>, cx: Ctx, i: int) -> bool
    decreases n.len() - i, 4int, 0int,
{
    if has_rows(n, i) { rows_from(n, cx, i, 0) } else { kids_safe(n, cx, i, ChildRendering::Inline) }
}

pub open spec fn rows_from(n: Seq<NodeView>, cx: Ctx, i: int, k: int) -> bool
    decreases n.len() - i, 2int, desc(n, i).len() - k,
{
    if 0 <= k < desc(n, i).len() {
        &&& (named(n, desc(n, i)[k], "tr"@) ==> cells_from(n, cx, i, desc(n, i)[k], 0))
        &&& rows_from(n, cx, i, k + 1)
    } else {
        true
    }
}

pub open spec fn cells_from(n: Seq<NodeView>, cx: Ctx, i: int, row: int, q: int) -> bool
    decreases n.len() - i, 1int, children(n, row).len() - q,
{
    if valid(n, row) && 0 <= q < children(n, row).len() {
        let cell = children(n, row)[q];
        proof { lemma_children(n, row); }
        &&& (is_cell(n, cell) && cell > i ==> kids_safe(n, cx, cell, ChildRendering::Inline))
        &&& cells_from(n, cx, i, row, q + 1)
    } else {
        true
    }
}

/// An `a` whose `href` is not empty, which a navigation block renders.
pub open spec fn href_nonempty(n: Seq<NodeView>, a: int) -> bool {
    attr(n, a, "href"@) matches Some(h) && h.len() > 0
}

/// Rendering a navigation block meets no list item: its content, and,
/// when it holds no list, its links and, when two or more of them render,
/// its first heading.
pub open spec fn nav_safe(n: Seq<NodeView>, cx: Ctx, i: int) -> bool
    decreases n.len() - i, 5int, 0int,
{
    &&& kids_safe(n, cx, i, ChildRendering::Mixed)
    &&& !has_list_below(n, i) ==> {
        &&& links_from(n, cx, i, 0)
        &&& links_fold(n, cx, i, desc(n, i).len() as int).len() >= 2 ==> match first_heading(n, desc(n, i)) {
            Some(h) => i <= h < n.len() ==> kids_safe(n, cx, h, ChildRendering::Inline),
            None => true,
        }
    }
}

pub open spec fn links_from(n: Seq<NodeView>, cx: Ctx, i: int, k: int) -> bool
    decreases n.len() - i, 4int, desc(n, i).len() - k,
{
    if 0 <= k < desc(n, i).len() {
        let a = desc(n, i)[k];
        &&& (named(n, a, "a"@) && i <= a < n.len() && href_nonempty(n, a) ==> kids_safe(n, cx, a, ChildRendering::Inline))
        &&& links_from(n, cx, i, k + 1)
    } else {
        true
    }
}

/// `<a id="..."></a>` and a newline for an element with a non-blank `id`
/// (or, without `id`, `name`).
pub open spec fn anchor_prefix(n: Seq<NodeView>, i: int) -> Seq<char> {
    let id = match attr(n, i, "id"@) {
        Some(v) => Some(v),
        None => attr(n, i, "name"@),
    };
    match id {
        Some(v) => if trim(v).len() > 0 { "<a id=\""@ + v + "\"></a>\n"@ } else { Seq::empty() },
        None => Seq::empty(),
    }
}

/// `![alt](path)` for an image with a `src`, the path mapped to the
/// copied asset when there is one.
pub open spec fn render_image(n: Seq<NodeView>, c: Ctx, i: int) -> Seq<char> {
    match attr(n, i, "src"@) {
        Some(src) => if src.len() == 0 {
            Seq::empty()
        } else {
            let alt = match attr(n, i, "alt"@) {
                Some(a) => a,
                None => Seq::empty(),
            };
            let resolved = match spec_asset_link(c.assets, src, spec_parent_dir(c.path)) {
                Some(p) => p,
                None => src,
            };
            "!["@ + alt + "]("@ + resolved + ")"@
        },
        None => Seq::empty(),
    }
}

/// The link target of `href` in the output.
pub open spec fn resolve_link(c: Ctx, href: Seq<char>) -> Seq<char> {
    match spec_markdown_link(c.links, href, c.path) {
        Some(p) => p,
        None => href,
    }
}

pub open spec fn heading_level(name: Seq<char>) -> nat {
    if name == "h1"@ { 1 } else if name == "h2"@ { 2 } else if name == "h3"@ { 3 }
    else if name == "h4"@ { 4 } else if name == "h5"@ { 5 } else { 6 }
}

pub open spec fn is_heading_name(name: Seq<char>) -> bool {
    name == "h1"@ || name == "h2"@ || name == "h3"@ || name == "h4"@ || name == "h5"@ || name == "h6"@
}

pub open spec fn is_container_name(name: Seq<char>) -> bool {
    name == "div"@ || name == "section"@ || name == "article"@ || name == "main"@ || name == "body"@
        || name == "html"@ || name == "aside"@
}

pub open spec fn block_rank(n: Seq<NodeView>, i: int) -> int {
    if is_list(n, i) { 6 } else { 10 }
}

/// The Markdown of a block element.
pub open spec fn r_block(n: Seq<NodeView>, c: Ctx, i: int) -> Seq<char>
    decreases n.len() - i, block_rank(n, i), 0int,
{
    if !valid(n, i) {
        Seq::empty()
    } else {
        let name = n[i].name;
        let anchor = anchor_prefix(n, i);
        if is_heading_name(name) {
            anchor + repeat('#', heading_level(name)) + " "@ + spec_trim_inline(r_ic(n, c, i))
        } else if name == "p"@ {
            anchor + spec_trim_inline(r_ic(n, c, i))
        } else if name == "ul"@ {
            r_list(n, c, i, false)
        } else if name == "ol"@ {
            r_list(n, c, i, true)
        } else if name == "blockquote"@ {
            anchor + join_seq(spec_lines(r_mixed(n, c, i)).map_values(|l: Seq<char>| "> "@ + l), "\n"@)
        } else if name == "pre"@ {
            anchor + spec_fenced_code_block(pre_text(n, i))
        } else if name == "hr"@ {
            "---"@
        } else if name == "table"@ {
            anchor + r_table(n, c, i)
        } else if name == "nav"@ {
            anchor + r_nav(n, c, i)
        } else if name == "figure"@ {
            anchor + join_seq(figure_fold(n, c, i, children(n, i).len() as int), "\n\n"@)
        } else if name == "figcaption"@ {
            "_"@ + spec_trim_inline(r_ic(n, c, i)) + "_"@
        } else if is_container_name(name) {
            anchor + r_mixed(n, c, i)
        } else if name == "img"@ {
            anchor + render_image(n, c, i)
        } else if name == "li"@ {
            Seq::empty()
        } else {
            spec_trim_inline(r_inline(n, c, i))
        }
    }
}

/// The Markdown of an inline element.
pub open spec fn r_inline(n: Seq<NodeView>, c: Ctx, i: int) -> Seq<char>
    decreases n.len() - i, 9int, 0int,
{
    if !valid(n, i) {
        Seq::empty()
    } else {
        let name = n[i].name;
        let anchor = anchor_prefix(n, i);
        if name == "strong"@ || name == "b"@ {
            anchor + "**"@ + spec_trim_inline(r_ic(n, c, i)) + "**"@
        } else if name == "em"@ || name == "i"@ {
            anchor + "*"@ + spec_trim_inline(r_ic(n, c, i)) + "*"@
        } else if name == "code"@ {
            anchor + "`"@ + spec_replace(spec_trim_inline(r_ic(n, c, i)), "`"@, "\\`"@) + "`"@
        } else if name == "sup"@ {
            anchor + "<sup>"@ + spec_trim_inline(r_ic(n, c, i)) + "</sup>"@
        } else if name == "sub"@ {
            anchor + "<sub>"@ + spec_trim_inline(r_ic(n, c, i)) + "</sub>"@
        } else if name == "a"@ {
            let text = spec_trim_inline(r_ic(n, c, i));
            match attr(n, i, "href"@) {
                Some(href) => if href.len() == 0 {
                    anchor + text
                } else {
                    let resolved = resolve_link(c, href);
                    let label = if text.len() == 0 { resolved } else { text };
                    anchor + "["@ + label + "]("@ + resolved + ")"@
                },
                None => anchor + text,
            }
        } else if name == "img"@ {
            anchor + render_image(n, c, i)
        } else if name == "br"@ {
            anchor + "\n"@
        } else if is_list(n, i) {
            anchor + r_block(n, c, i)
        } else if name == "li"@ {
            anchor
        } else {
            anchor + r_ic(n, c, i)
        }
    }
}

/// Bold text is set between two asterisks on each side and italic text
/// between one: a `strong` or `b` element renders as its anchor, "**",
/// the trimmed rendering of its content and "**"; an `em` or `i` element
/// as its anchor, "*", the same content and "*".  So bold and italic of
/// the same content never render alike.
pub proof fn law_bold_and_italic_markers(n: Seq<NodeView>, c: Ctx, i: int)
    requires
        valid(n, i),
    ensures
        n[i].name == "strong"@ || n[i].name == "b"@
            ==> r_inline(n, c, i) == anchor_prefix(n, i) + seq!['*', '*'] + spec_trim_inline(r_ic(n, c, i)) + seq!['*', '*'],
        n[i].name == "em"@ || n[i].name == "i"@
            ==> r_inline(n, c, i) == anchor_prefix(n, i) + seq!['*'] + spec_trim_inline(r_ic(n, c, i)) + seq!['*'],
{
    reveal_strlit("strong");
    reveal_strlit("b");
    reveal_strlit("em");
    reveal_strlit("i");
    reveal_strlit("**");
    reveal_strlit("*");
    assert("**"@ =~= seq!['*', '*']);
    assert("*"@ =~= seq!['*']);
    assert("em"@ != "strong"@ && "em"@ != "b"@) by {
        assert("em"@.len() != "strong"@.len());
        assert("em"@.len() != "b"@.len());
    }
    assert("i"@ != "strong"@ && "i"@ != "b"@) by {
        assert("i"@.len() != "strong"@.len());
        assert("i"@[0] != "b"@[0]);
    }
}

/// The lines of a list and the number of the next item.
pub open spec fn list_fold(n: Seq<NodeView>, c: Ctx, i: int, ordered: bool, k: int) -> (Seq<Seq<char>>, nat)
    decreases n.len() - i, 4int, k,
{
    if !valid(n, i) || k <= 0 || k > children(n, i).len() {
        (Seq::empty(), 1)
    } else {
        let (lines, index) = list_fold(n, c, i, ordered, k - 1);
        let li = children(n, i)[k - 1];
        proof { lemma_children(n, i); }
        if named(n, li, "li"@) {
            let marker = if ordered { decimal(index) + ". "@ } else { "- "@ };
            (lines.push(list_item_text(marker, item_content(n, c, li))), index + 1)
        } else {
            (lines, index)
        }
    }
}

/// The Markdown of a list item before its marker: its mixed content when
/// it has block children and that is not blank, else its inline content.
pub open spec fn item_content(n: Seq<NodeView>, c: Ctx, li: int) -> Seq<char>
    decreases n.len() - li, 9int, 0int,
{
    if has_block_child(n, li) {
        let rendered = r_mixed(n, c, li);
        if trim(rendered).len() == 0 { r_ic(n, c, li) } else { rendered }
    } else {
        r_ic(n, c, li)
    }
}

/// The item's first line after the marker, the others indented as deep.
pub open spec fn list_item_text(marker: Seq<char>, content: Seq<char>) -> Seq<char> {
    let ls = spec_lines(content);
    join_seq(
        Seq::new(ls.len(), |k: int| if k == 0 { marker + ls[k] } else { repeat(' ', marker.len()) + ls[k] }),
        "\n"@,
    )
}

/// How many of the first `k` children of `i` are list items.
pub open spec fn li_before(n: Seq<NodeView>, i: int, k: int) -> nat
    decreases k,
{
    if k <= 0 {
        0
    } else {
        li_before(n, i, k - 1) + if named(n, children(n, i)[k - 1], "li"@) { 1nat } else { 0nat }
    }
}

/// The marker of the item that comes `j`-th (from 0) in a list.
pub open spec fn item_marker(ordered: bool, j: nat) -> Seq<char> {
    if ordered { decimal(j + 1) + ". "@ } else { "- "@ }
}

/// The item lines of list `i`, one per `li` child.
pub open spec fn list_lines(n: Seq<NodeView>, c: Ctx, i: int, ordered: bool) -> Seq<Seq<char>> {
    list_fold(n, c, i, ordered, children(n, i).len() as int).0
}

proof fn lemma_item_text_starts_with_marker(marker: Seq<char>, content: Seq<char>)
    requires
        spec_lines(content).len() > 0,
    ensures
        marker.len() <= list_item_text(marker, content).len(),
        list_item_text(marker, content).take(marker.len() as int) == marker,
{
    let ls = spec_lines(content);
    let parts = Seq::new(ls.len(), |k: int| if k == 0 { marker + ls[k] } else { repeat(' ', marker.len()) + ls[k] });
    crate::text::lemma_join_starts_with_first(parts, "\n"@);
    assert(parts[0] == marker + ls[0]);
    assert(list_item_text(marker, content) == join_seq(parts, "\n"@));
    assert(join_seq(parts, "\n"@).take(marker.len() as int) =~= parts[0].take(marker.len() as int));
    assert(parts[0].take(marker.len() as int) =~= marker);
}

proof fn lemma_list_fold_items(n: Seq<NodeView>, c: Ctx, i: int, ordered: bool, k: int)
    requires
        valid(n, i),
        0 <= k <= children(n, i).len(),
    ensures
        list_fold(n, c, i, ordered, k).1 == list_fold(n, c, i, ordered, k).0.len() + 1,
        list_fold(n, c, i, ordered, k).0.len() == li_before(n, i, k),
        forall|q: int| 0 <= q < k && named(n, #[trigger] children(n, i)[q], "li"@) ==> {
            &&& li_before(n, i, q) < list_fold(n, c, i, ordered, k).0.len()
            &&& list_fold(n, c, i, ordered, k).0[li_before(n, i, q) as int]
                == list_item_text(item_marker(ordered, li_before(n, i, q)), item_content(n, c, children(n, i)[q]))
        },
    decreases k,
{
    if k > 0 {
        lemma_list_fold_items(n, c, i, ordered, k - 1);
        let before = list_fold(n, c, i, ordered, k - 1).0;
        let now = list_fold(n, c, i, ordered, k).0;
        assert forall|q: int| 0 <= q < k && named(n, #[trigger] children(n, i)[q], "li"@) implies {
            &&& li_before(n, i, q) < now.len()
            &&& now[li_before(n, i, q) as int]
                == list_item_text(item_marker(ordered, li_before(n, i, q)), item_content(n, c, children(n, i)[q]))
        } by {
            if q < k - 1 {
                assert(li_before(n, i, q) < before.len());
                assert(now[li_before(n, i, q) as int] == before[li_before(n, i, q) as int]);
            }
        }
    }
}

/// The items of a list come out in the order of its `li` children, one
/// line group each, and no other child makes one.  An ordered list numbers
/// its items 1, 2, 3, ... counting only its `li` children; an unordered
/// list marks each with "- ".  The marker begins the item's text, which
/// is the item's content with its later lines indented, unless the item
/// renders no line at all.
pub proof fn law_list_items_numbered_from_one(n: Seq<NodeView>, c: Ctx, i: int, ordered: bool, q: int)
    requires
        valid(n, i),
        0 <= q < children(n, i).len(),
        named(n, children(n, i)[q], "li"@),
    ensures
        r_list(n, c, i, ordered) == join_seq(list_lines(n, c, i, ordered), "\n"@),
        list_lines(n, c, i, ordered).len() == li_before(n, i, children(n, i).len() as int),
        li_before(n, i, q) < list_lines(n, c, i, ordered).len(),
        list_lines(n, c, i, ordered)[li_before(n, i, q) as int]
            == list_item_text(item_marker(ordered, li_before(n, i, q)), item_content(n, c, children(n, i)[q])),
        spec_lines(item_content(n, c, children(n, i)[q])).len() > 0 ==> {
            &&& item_marker(ordered, li_before(n, i, q)).len() <= list_lines(n, c, i, ordered)[li_before(n, i, q) as int].len()
            &&& list_lines(n, c, i, ordered)[li_before(n, i, q) as int].take(item_marker(ordered, li_before(n, i, q)).len() as int)
                == item_marker(ordered, li_before(n, i, q))
        },
{
    lemma_list_fold_items(n, c, i, ordered, children(n, i).len() as int);
    assert(named(n, children(n, i)[q], "li"@));
    if spec_lines(item_content(n, c, children(n, i)[q])).len() > 0 {
        lemma_item_text_starts_with_marker(item_marker(ordered, li_before(n, i, q)), item_content(n, c, children(n, i)[q]));
    }
}

/// Whether an element child of `i` is a block element other than `br`.
pub open spec fn has_block_child(n: Seq<NodeView>, i: int) -> bool {
    exists|k: int| 0 <= k < children(n, i).len() && is_elem(n, #[trigger] children(n, i)[k])
        && spec_is_block_element(n[children(n, i)[k]].name) && n[children(n, i)[k]].name != "br"@
}

pub open spec fn r_list(n: Seq<NodeView>, c: Ctx, i: int, ordered: bool) -> Seq<char>
    decreases n.len() - i, 5int, 0int,
{
    join_seq(list_fold(n, c, i, ordered, children(n, i).len() as int).0, "\n"@)
}

/// Blocks of mixed content and the inline text not yet made a block.
pub open spec fn mixed_fold(n: Seq<NodeView>, c: Ctx, i: int, k: int) -> (Seq<Seq<char>>, Seq<char>)
    decreases n.len() - i, 6int, k,
{
    if !valid(n, i) || k <= 0 || k > children(n, i).len() {
        (Seq::empty(), Seq::empty())
    } else {
        let (blocks, buffer) = mixed_fold(n, c, i, k - 1);
        let ch = children(n, i)[k - 1];
        proof { lemma_children(n, i); }
        if !valid(n, ch) {
            (blocks, buffer)
        } else if n[ch].kind == XmlKind::Text {
            (blocks, buffer + n[ch].text)
        } else if n[ch].kind == XmlKind::Element {
            if spec_is_block_element(n[ch].name) {
                let flushed = flush(blocks, buffer);
                let rendered = trim(r_block(n, c, ch));
                (if rendered.len() > 0 { flushed.push(rendered) } else { flushed }, Seq::empty())
            } else {
                (blocks, buffer + r_inline(n, c, ch))
            }
        } else {
            (blocks, buffer)
        }
    }
}

/// The buffered inline text made a block, when it holds anything.
pub open spec fn flush(blocks: Seq<Seq<char>>, buffer: Seq<char>) -> Seq<Seq<char>> {
    let inline = spec_trim_inline(buffer);
    if inline.len() > 0 { blocks.push(inline) } else { blocks }
}

/// Content that mixes text, inline elements and blocks.
pub open spec fn r_mixed(n: Seq<NodeView>, c: Ctx, i: int) -> Seq<char>
    decreases n.len() - i, 7int, 0int,
{
    let (blocks, buffer) = mixed_fold(n, c, i, children(n, i).len() as int);
    join_seq(flush(blocks, buffer), "\n\n"@)
}

pub open spec fn ic_fold(n: Seq<NodeView>, c: Ctx, i: int, k: int) -> Seq<char>
    decreases n.len() - i, 4int, k,
{
    if !valid(n, i) || k <= 0 || k > children(n, i).len() {
        Seq::empty()
    } else {
        let before = ic_fold(n, c, i, k - 1);
        let ch = children(n, i)[k - 1];
        proof { lemma_children(n, i); }
        if !valid(n, ch) {
            before
        } else if n[ch].kind == XmlKind::Text {
            before + n[ch].text
        } else if n[ch].kind == XmlKind::Element {
            let spaced = n[ch].name == "p"@ || n[ch].name == "div"@ || n[ch].name == "br"@;
            before + r_inline(n, c, ch) + if spaced { " "@ } else { Seq::empty() }
        } else {
            before
        }
    }
}

/// The inline content of an element's children.
pub open spec fn r_ic(n: Seq<NodeView>, c: Ctx, i: int) -> Seq<char>
    decreases n.len() - i, 5int, 0int,
{
    ic_fold(n, c, i, children(n, i).len() as int)
}

/// The blocks of a figure that are not blank.
pub open spec fn figure_fold(n: Seq<NodeView>, c: Ctx, i: int, k: int) -> Seq<Seq<char>>
    decreases n.len() - i, 7int, k,
{
    if !valid(n, i) || k <= 0 || k > children(n, i).len() {
        Seq::empty()
    } else {
        let before = figure_fold(n, c, i, k - 1);
        let ch = children(n, i)[k - 1];
        proof { lemma_children(n, i); }
        if is_elem(n, ch) {
            let b = r_block(n, c, ch);
            if trim(b).len() > 0 { before.push(b) } else { before }
        } else {
            before
        }
    }
}

/// The cells of a table row, escaped for Markdown.
pub open spec fn cells_fold(n: Seq<NodeView>, c: Ctx, i: int, row: int, k: int) -> Seq<Seq<char>>
    decreases n.len() - i, 6int, k,
{
    if !valid(n, row) || k <= 0 || k > children(n, row).len() {
        Seq::empty()
    } else {
        let before = cells_fold(n, c, i, row, k - 1);
        let cell = children(n, row)[k - 1];
        if (named(n, cell, "th"@) || named(n, cell, "td"@)) && cell > i {
            before.push(spec_replace(spec_trim_inline(r_ic(n, c, cell)), "|"@, "\\|"@))
        } else {
            before
        }
    }
}

/// The non-empty rows of a table, from the `tr` elements under it.
pub open spec fn rows_fold(n: Seq<NodeView>, c: Ctx, i: int, k: int) -> Seq<Seq<Seq<char>>>
    decreases n.len() - i, 7int, k,
{
    let d = desc(n, i);
    if k <= 0 || k > d.len() {
        Seq::empty()
    } else {
        let before = rows_fold(n, c, i, k - 1);
        let row = d[k - 1];
        if named(n, row, "tr"@) {
            let cells = cells_fold(n, c, i, row, children(n, row).len() as int);
            if cells.len() > 0 { before.push(cells) } else { before }
        } else {
            before
        }
    }
}

pub open spec fn max_len(rows: Seq<Seq<Seq<char>>>) -> nat
    decreases rows.len(),
{
    if rows.len() == 0 {
        0
    } else {
        let m = max_len(rows.drop_last());
        if rows.last().len() > m { rows.last().len() } else { m }
    }
}

/// A row cut or padded with empty cells to `n` cells.
pub open spec fn pad(row: Seq<Seq<char>>, n: nat) -> Seq<Seq<char>> {
    Seq::new(n, |k: int| if k < row.len() { row[k] } else { Seq::empty() })
}

pub open spec fn table_line(cells: Seq<Seq<char>>) -> Seq<char> {
    "| "@ + join_seq(cells, " | "@) + " |"@
}

/// A Markdown table: the first row as header, a rule, then the others.
pub open spec fn table_text(rows: Seq<Seq<Seq<char>>>) -> Seq<char> {
    let cc = max_len(rows);
    let lines = seq![table_line(pad(rows[0], cc)), table_line(Seq::new(cc, |k: int| "---"@))]
        + Seq::new((rows.len() - 1) as nat, |k: int| table_line(pad(rows[k + 1], cc)));
    join_seq(lines, "\n"@)
}

pub open spec fn r_table(n: Seq<NodeView>, c: Ctx, i: int) -> Seq<char>
    decreases n.len() - i, 8int, 0int,
{
    let rows = rows_fold(n, c, i, desc(n, i).len() as int);
    if rows.len() == 0 { spec_trim_inline(r_ic(n, c, i)) } else { table_text(rows) }
}

/// A navigation link with text: `[text](target)`.
pub open spec fn nav_link(n: Seq<NodeView>, c: Ctx, a: int) -> Option<Seq<char>>
    decreases n.len() - a, 6int, 0int,
{
    match attr(n, a, "href"@) {
        Some(href) => if href.len() == 0 {
            None
        } else {
            let text = spec_trim_inline(r_ic(n, c, a));
            if text.len() == 0 { None } else { Some("["@ + text + "]("@ + resolve_link(c, href) + ")"@) }
        },
        None => None,
    }
}

pub open spec fn links_fold(n: Seq<NodeView>, c: Ctx, i: int, k: int) -> Seq<Seq<char>>
    decreases n.len() - i, 7int, k,
{
    let d = desc(n, i);
    if k <= 0 || k > d.len() {
        Seq::empty()
    } else {
        let before = links_fold(n, c, i, k - 1);
        let a = d[k - 1];
        if named(n, a, "a"@) && a >= i {
            match nav_link(n, c, a) {
                Some(l) => before.push(l),
                None => before,
            }
        } else {
            before
        }
    }
}

/// The first heading under `i`.
pub open spec fn first_heading(n: Seq<NodeView>, list: Seq<int>) -> Option<int>
    decreases list.len(),
{
    if list.len() == 0 {
        None
    } else if is_elem(n, list[0]) && is_heading_name(n[list[0]].name) {
        Some(list[0])
    } else {
        first_heading(n, list.drop_first())
    }
}

pub open spec fn has_list_below(n: Seq<NodeView>, i: int) -> bool {
    exists|k: int| 0 <= k < desc(n, i).len() && is_list(n, #[trigger] desc(n, i)[k])
}

/// A `nav` element: as mixed content when it holds a list or fewer than
/// two links; otherwise its heading and its links as a list.
pub open spec fn r_nav(n: Seq<NodeView>, c: Ctx, i: int) -> Seq<char>
    decreases n.len() - i, 8int, 0int,
{
    let rendered = r_mixed(n, c, i);
    let links = links_fold(n, c, i, desc(n, i).len() as int);
    if has_list_below(n, i) || links.len() < 2 {
        rendered
    } else {
        let heading = match first_heading(n, desc(n, i)) {
            Some(h) => if i <= h < n.len() {
                let text = spec_trim_inline(r_ic(n, c, h));
                if text.len() > 0 {
                    let level = heading_level(n[h].name);
                    seq![repeat('#', if level < 2 { 2 } else { level }) + " "@ + text]
                } else {
                    Seq::empty()
                }
            } else {
                Seq::empty()
            },
            None => Seq::empty(),
        };
        join_seq(heading.push(join_seq(links.map_values(|l: Seq<char>| "- "@ + l), "\n"@)), "\n\n"@)
    }
}

/// The text of a preformatted element: text as it stands, `br` as a
/// newline, other elements by their own text.
pub open spec fn pre_text(n: Seq<NodeView>, i: int) -> Seq<char>
    decreases n.len() - i, 1int, 0int,
{
    pre_fold(n, i, children(n, i).len() as int)
}

pub open spec fn pre_fold(n: Seq<NodeView>, i: int, k: int) -> Seq<char>
    decreases n.len() - i, 0int, k,
{
    if !valid(n, i) || k <= 0 || k > children(n, i).len() {
        Seq::empty()
    } else {
        let before = pre_fold(n, i, k - 1);
        let ch = children(n, i)[k - 1];
        proof { lemma_children(n, i); }
        if !valid(n, ch) {
            before
        } else if n[ch].kind == XmlKind::Text {
            before + n[ch].text
        } else if n[ch].kind == XmlKind::Element {
            if n[ch].name == "br"@ { before.push('\n') } else { before + pre_text(n, ch) }
        } else {
            before
        }
    }
}


proof fn lemma_kids_at(n: Seq<NodeView>, cx: Ctx, i: int, how: ChildRendering, j: int, k: int)
    requires
        valid(n, i),
        0 <= j <= k < children(n, i).len(),
        kids_from(n, cx, i, how, j),
    ensures
        is_elem(n, children(n, i)[k]) ==> child_safe(n, cx, children(n, i)[k], how),
    decreases k - j,
{
    if j < k {
        lemma_kids_at(n, cx, i, how, j + 1, k);
    }
}

/// What rendering the `k`-th child of `i` as `how` says may rely on.
pub proof fn lemma_kid_safe(n: Seq<NodeView>, cx: Ctx, i: int, how: ChildRendering, k: int)
    requires
        kids_safe(n, cx, i, how),
        valid(n, i),
        0 <= k < children(n, i).len(),
    ensures
        is_elem(n, children(n, i)[k]) ==> child_safe(n, cx, children(n, i)[k], how),
{
    lemma_kids_at(n, cx, i, how, 0, k);
}

proof fn lemma_items_at(n: Seq<NodeView>, cx: Ctx, i: int, j: int, k: int)
    requires
        valid(n, i),
        0 <= j <= k < children(n, i).len(),
        items_from(n, cx, i, j),
    ensures
        named(n, children(n, i)[k], "li"@) ==> item_safe(n, cx, children(n, i)[k]),
    decreases k - j,
{
    if j < k {
        lemma_items_at(n, cx, i, j + 1, k);
    }
}

proof fn lemma_rows_at(n: Seq<NodeView>, cx: Ctx, i: int, j: int, k: int)
    requires
        0 <= j <= k < desc(n, i).len(),
        rows_from(n, cx, i, j),
    ensures
        named(n, desc(n, i)[k], "tr"@) ==> cells_from(n, cx, i, desc(n, i)[k], 0),
    decreases k - j,
{
    if j < k {
        lemma_rows_at(n, cx, i, j + 1, k);
    }
}

proof fn lemma_cells_at(n: Seq<NodeView>, cx: Ctx, i: int, row: int, j: int, q: int)
    requires
        valid(n, row),
        0 <= j <= q < children(n, row).len(),
        cells_from(n, cx, i, row, j),
    ensures
        is_cell(n, children(n, row)[q]) && children(n, row)[q] > i ==> kids_safe(n, cx, children(n, row)[q], ChildRendering::Inline),
    decreases q - j,
{
    if j < q {
        lemma_cells_at(n, cx, i, row, j + 1, q);
    }
}

proof fn lemma_links_at(n: Seq<NodeView>, cx: Ctx, i: int, j: int, k: int)
    requires
        0 <= j <= k < desc(n, i).len(),
        links_from(n, cx, i, j),
    ensures
        named(n, desc(n, i)[k], "a"@) && i <= desc(n, i)[k] < n.len() && href_nonempty(n, desc(n, i)[k])
            ==> kids_safe(n, cx, desc(n, i)[k], ChildRendering::Inline),
    decreases k - j,
{
    if j < k {
        lemma_links_at(n, cx, i, j + 1, k);
    }
}

fn anchor_prefix_chars(doc: &XmlDoc, i: usize) -> (r: Vec<char>)
    requires
        i < doc.nodes@.len(),
    ensures
        r@ == anchor_prefix(doc.view_nodes(), i as int),
{
    proof {
        reveal_strlit("<a id=\"");
        reveal_strlit("\"></a>\n");
    }
    let id = match doc.attribute(i, "id") {
        Some(v) => Some(v),
        None => doc.attribute(i, "name"),
    };
    match id {
        Some(v) => {
            let vc = chars_of(v.as_str());
            if trim_chars(&vc).len() > 0 {
                let mut out = chars_of("<a id=\"");
                append_chars(&mut out, &vc);
                append_chars(&mut out, &chars_of("\"></a>\n"));
                out
            } else {
                Vec::new()
            }
        },
        None => Vec::new(),
    }
}

fn image_chars(doc: &XmlDoc, ctx: &RenderContext, i: usize) -> (r: Vec<char>)
    requires
        i < doc.nodes@.len(),
    ensures
        r@ == render_image(doc.view_nodes(), ctx_view(*ctx), i as int),
{
    proof {
        reveal_strlit("![");
        reveal_strlit("](");
        reveal_strlit(")");
    }
    match doc.attribute(i, "src") {
        Some(src) => {
            if src.as_str().is_empty() {
                return Vec::new();
            }
            let alt = match doc.attribute(i, "alt") {
                Some(a) => a,
                None => string_of(&Vec::new()),
            };
            let base = parent_dir(ctx.current_epub_path);
            let resolved = match ctx.asset_mapper.markdown_path(src.as_str(), base.as_str()) {
                Some(p) => p,
                None => src,
            };
            let mut out = chars_of("![");
            append_chars(&mut out, &chars_of(alt.as_str()));
            append_chars(&mut out, &chars_of("]("));
            append_chars(&mut out, &chars_of(resolved.as_str()));
            append_chars(&mut out, &chars_of(")"));
            out
        },
        None => Vec::new(),
    }
}

fn resolve_link_chars(ctx: &RenderContext, href: &str) -> (r: Vec<char>)
    ensures
        r@ == resolve_link(ctx_view(*ctx), href@),
{
    match ctx.chapter_links.markdown_path(href, ctx.current_epub_path) {
        Some(p) => chars_of(p.as_str()),
        None => chars_of(href),
    }
}

fn heading_level_of(name: &str) -> (r: usize)
    ensures
        r == heading_level(name@),
{
    if str_eq(name, "h1") { 1 } else if str_eq(name, "h2") { 2 } else if str_eq(name, "h3") { 3 }
    else if str_eq(name, "h4") { 4 } else if str_eq(name, "h5") { 5 } else { 6 }
}

fn is_heading_str(name: &str) -> (r: bool)
    ensures
        r == is_heading_name(name@),
{
    str_eq(name, "h1") || str_eq(name, "h2") || str_eq(name, "h3") || str_eq(name, "h4")
        || str_eq(name, "h5") || str_eq(name, "h6")
}

fn is_container_str(name: &str) -> (r: bool)
    ensures
        r == is_container_name(name@),
{
    str_eq(name, "div") || str_eq(name, "section") || str_eq(name, "article") || str_eq(name, "main")
        || str_eq(name, "body") || str_eq(name, "html") || str_eq(name, "aside")
}

fn trim_inline_chars(v: &Vec<char>) -> (r: Vec<char>)
    ensures
        r@ == spec_trim_inline(v@),
{
    chars_of(trim_inline(string_of(v).as_str()).as_str())
}

fn pre_text_chars(doc: &XmlDoc, i: usize) -> (r: Vec<char>)
    requires
        doc.wf(),
        i < doc.nodes@.len(),
    ensures
        r@ == pre_text(doc.view_nodes(), i as int),
    decreases doc.nodes@.len() - i,
{
    let ghost n = doc.view_nodes();
    let kids = doc.children_of(i);
    let mut out: Vec<char> = Vec::new();
    let mut k: usize = 0;
    while k < kids.len()
        invariant
            k <= kids@.len(),
            doc.wf(),
            i < doc.nodes@.len(),
            n == doc.view_nodes(),
            usize_seq(kids@) == children(n, i as int),
            forall|q: int| 0 <= q < kids@.len() ==> i < #[trigger] kids@[q] < doc.nodes@.len(),
            out@ == pre_fold(n, i as int, k as int),
        decreases kids@.len() - k,
    {
        let ch = kids[k];
        assert(usize_seq(kids@)[k as int] == ch as int);
        if doc.is_text(ch) {
            append_chars(&mut out, &chars_of(doc.text(ch)));
        } else if doc.is_element(ch) {
            if str_eq(doc.name(ch), "br") {
                out.push('\n');
            } else {
                let t = pre_text_chars(doc, ch);
                append_chars(&mut out, &t);
            }
        }
        k += 1;
    }
    out
}


fn push_str_chars(out: &mut Vec<char>, s: &str)
    ensures
        final(out)@ == old(out)@ + s@,
{
    append_chars(out, &chars_of(s));
}

/// The inline Markdown of an element's children.
/// The element names that the renderer tells apart are different names.
proof fn reveal_names()
    ensures
        "strong"@ != "ul"@, "strong"@ != "ol"@, "strong"@ != "li"@,
        "b"@ != "ul"@, "b"@ != "ol"@, "b"@ != "li"@,
        "em"@ != "ul"@, "em"@ != "ol"@, "em"@ != "li"@,
        "i"@ != "ul"@, "i"@ != "ol"@, "i"@ != "li"@,
        "code"@ != "ul"@, "code"@ != "ol"@, "code"@ != "li"@,
        "sup"@ != "ul"@, "sup"@ != "ol"@, "sup"@ != "li"@,
        "sub"@ != "ul"@, "sub"@ != "ol"@, "sub"@ != "li"@,
        "a"@ != "ul"@, "a"@ != "ol"@, "a"@ != "li"@,
        "img"@ != "ul"@, "img"@ != "ol"@, "img"@ != "li"@,
        "br"@ != "ul"@, "br"@ != "ol"@, "br"@ != "li"@,
        "li"@ != "ul"@, "li"@ != "ol"@,
        "p"@ != "ul"@, "p"@ != "ol"@, "p"@ != "li"@,
        "blockquote"@ != "ul"@, "blockquote"@ != "ol"@, "blockquote"@ != "li"@,
        "pre"@ != "ul"@, "pre"@ != "ol"@, "pre"@ != "li"@,
        "hr"@ != "ul"@, "hr"@ != "ol"@, "hr"@ != "li"@,
        "table"@ != "ul"@, "table"@ != "ol"@, "table"@ != "li"@,
        "nav"@ != "ul"@, "nav"@ != "ol"@, "nav"@ != "li"@,
        "figure"@ != "ul"@, "figure"@ != "ol"@, "figure"@ != "li"@,
        "figcaption"@ != "ul"@, "figcaption"@ != "ol"@, "figcaption"@ != "li"@,
        "th"@ != "ul"@, "th"@ != "ol"@, "th"@ != "li"@,
        "td"@ != "ul"@, "td"@ != "ol"@, "td"@ != "li"@,
        "tr"@ != "ul"@, "tr"@ != "ol"@, "tr"@ != "li"@,
        "ul"@ != "ol"@,
        forall|nm: Seq<char>| is_heading_name(nm) ==> nm != "ul"@ && nm != "ol"@ && nm != "li"@,
        forall|nm: Seq<char>| is_container_name(nm) ==> nm != "ul"@ && nm != "ol"@ && nm != "li"@,
{
    reveal_strlit("strong");
    assert("strong"@ =~= seq!['s', 't', 'r', 'o', 'n', 'g']);
    reveal_strlit("b");
    assert("b"@ =~= seq!['b']);
    reveal_strlit("em");
    assert("em"@ =~= seq!['e', 'm']);
    reveal_strlit("i");
    assert("i"@ =~= seq!['i']);
    reveal_strlit("code");
    assert("code"@ =~= seq!['c', 'o', 'd', 'e']);
    reveal_strlit("sup");
    assert("sup"@ =~= seq!['s', 'u', 'p']);
    reveal_strlit("sub");
    assert("sub"@ =~= seq!['s', 'u', 'b']);
    reveal_strlit("a");
    assert("a"@ =~= seq!['a']);
    reveal_strlit("img");
    assert("img"@ =~= seq!['i', 'm', 'g']);
    reveal_strlit("br");
    assert("br"@ =~= seq!['b', 'r']);
    reveal_strlit("ul");
    assert("ul"@ =~= seq!['u', 'l']);
    reveal_strlit("ol");
    assert("ol"@ =~= seq!['o', 'l']);
    reveal_strlit("li");
    assert("li"@ =~= seq!['l', 'i']);
    reveal_strlit("p");
    assert("p"@ =~= seq!['p']);
    reveal_strlit("div");
    assert("div"@ =~= seq!['d', 'i', 'v']);
    reveal_strlit("h1");
    assert("h1"@ =~= seq!['h', '1']);
    reveal_strlit("h2");
    assert("h2"@ =~= seq!['h', '2']);
    reveal_strlit("h3");
    assert("h3"@ =~= seq!['h', '3']);
    reveal_strlit("h4");
    assert("h4"@ =~= seq!['h', '4']);
    reveal_strlit("h5");
    assert("h5"@ =~= seq!['h', '5']);
    reveal_strlit("h6");
    assert("h6"@ =~= seq!['h', '6']);
    reveal_strlit("blockquote");
    assert("blockquote"@ =~= seq!['b', 'l', 'o', 'c', 'k', 'q', 'u', 'o', 't', 'e']);
    reveal_strlit("pre");
    assert("pre"@ =~= seq!['p', 'r', 'e']);
    reveal_strlit("hr");
    assert("hr"@ =~= seq!['h', 'r']);
    reveal_strlit("table");
    assert("table"@ =~= seq!['t', 'a', 'b', 'l', 'e']);
    reveal_strlit("nav");
    assert("nav"@ =~= seq!['n', 'a', 'v']);
    reveal_strlit("figure");
    assert("figure"@ =~= seq!['f', 'i', 'g', 'u', 'r', 'e']);
    reveal_strlit("figcaption");
    assert("figcaption"@ =~= seq!['f', 'i', 'g', 'c', 'a', 'p', 't', 'i', 'o', 'n']);
    reveal_strlit("section");
    assert("section"@ =~= seq!['s', 'e', 'c', 't', 'i', 'o', 'n']);
    reveal_strlit("article");
    assert("article"@ =~= seq!['a', 'r', 't', 'i', 'c', 'l', 'e']);
    reveal_strlit("main");
    assert("main"@ =~= seq!['m', 'a', 'i', 'n']);
    reveal_strlit("body");
    assert("body"@ =~= seq!['b', 'o', 'd', 'y']);
    reveal_strlit("html");
    assert("html"@ =~= seq!['h', 't', 'm', 'l']);
    reveal_strlit("aside");
    assert("aside"@ =~= seq!['a', 's', 'i', 'd', 'e']);
    reveal_strlit("th");
    assert("th"@ =~= seq!['t', 'h']);
    reveal_strlit("td");
    assert("td"@ =~= seq!['t', 'd']);
    reveal_strlit("tr");
    assert("tr"@ =~= seq!['t', 'r']);
}

pub fn render_inline_children(doc: &XmlDoc, ctx: &RenderContext, i: usize) -> (r: Vec<char>)
    requires
        doc.wf(),
        i < doc.nodes@.len(),
        kids_safe(doc.view_nodes(), ctx_view(*ctx), i as int, ChildRendering::Inline),
    ensures
        r@ == r_ic(doc.view_nodes(), ctx_view(*ctx), i as int),
    decreases doc.nodes@.len() - i, 5int,
{
    let ghost n = doc.view_nodes();
    let ghost cv = ctx_view(*ctx);
    let kids = doc.children_of(i);
    let mut out: Vec<char> = Vec::new();
    let mut k: usize = 0;
    while k < kids.len()
        invariant
            k <= kids@.len(),
            doc.wf(),
            i < doc.nodes@.len(),
            n == doc.view_nodes(),
            cv == ctx_view(*ctx),
            kids_safe(n, cv, i as int, ChildRendering::Inline),
            usize_seq(kids@) == children(n, i as int),
            forall|q: int| 0 <= q < kids@.len() ==> i < #[trigger] kids@[q] < doc.nodes@.len(),
            out@ == ic_fold(n, cv, i as int, k as int),
        decreases kids@.len() - k,
    {
        let ch = kids[k];
        assert(usize_seq(kids@)[k as int] == ch as int);
        proof {
            lemma_kid_safe(n, cv, i as int, ChildRendering::Inline, k as int);
        }
        if doc.is_text(ch) {
            push_str_chars(&mut out, doc.text(ch));
        } else if doc.is_element(ch) {
            let r = render_inline(doc, ctx, ch);
            append_chars(&mut out, &r);
            let nm = doc.name(ch);
            if str_eq(nm, "p") || str_eq(nm, "div") || str_eq(nm, "br") {
                out.push(' ');
                proof { reveal_strlit(" "); }
                assert(" "@ =~= seq![' ']);
            } else {
                assert(out@ =~= out@ + Seq::<char>::empty());
            }
        }
        k += 1;
    }
    out
}

/// The Markdown of an inline element.
pub fn render_inline(doc: &XmlDoc, ctx: &RenderContext, i: usize) -> (r: Vec<char>)
    requires
        doc.wf(),
        i < doc.nodes@.len(),
        inline_safe(doc.view_nodes(), ctx_view(*ctx), i as int),
        !named(doc.view_nodes(), i as int, "li"@),
    ensures
        r@ == r_inline(doc.view_nodes(), ctx_view(*ctx), i as int),
    decreases doc.nodes@.len() - i, 9int,
{
    let ghost n = doc.view_nodes();
    let ghost cv = ctx_view(*ctx);
    proof { reveal_names(); }
    let name = doc.name(i);
    let anchor = anchor_prefix_chars(doc, i);
    let mut out = anchor;
    proof {
        reveal_strlit("**");
        reveal_strlit("*");
        reveal_strlit("`");
        reveal_strlit("\\`");
        reveal_strlit("<sup>");
        reveal_strlit("</sup>");
        reveal_strlit("<sub>");
        reveal_strlit("</sub>");
        reveal_strlit("[");
        reveal_strlit("](");
        reveal_strlit(")");
        reveal_strlit("\n");
    }
    let list = doc.element_named(i, "ul") || doc.element_named(i, "ol");
    if str_eq(name, "strong") || str_eq(name, "b") {
        push_str_chars(&mut out, "**");
        append_chars(&mut out, &trim_inline_chars(&render_inline_children(doc, ctx, i)));
        push_str_chars(&mut out, "**");
    } else if str_eq(name, "em") || str_eq(name, "i") {
        push_str_chars(&mut out, "*");
        append_chars(&mut out, &trim_inline_chars(&render_inline_children(doc, ctx, i)));
        push_str_chars(&mut out, "*");
    } else if str_eq(name, "code") {
        push_str_chars(&mut out, "`");
        let t = trim_inline_chars(&render_inline_children(doc, ctx, i));
        append_chars(&mut out, &replace_chars(&t, &chars_of("`"), &chars_of("\\`")));
        push_str_chars(&mut out, "`");
    } else if str_eq(name, "sup") {
        push_str_chars(&mut out, "<sup>");
        append_chars(&mut out, &trim_inline_chars(&render_inline_children(doc, ctx, i)));
        push_str_chars(&mut out, "</sup>");
    } else if str_eq(name, "sub") {
        push_str_chars(&mut out, "<sub>");
        append_chars(&mut out, &trim_inline_chars(&render_inline_children(doc, ctx, i)));
        push_str_chars(&mut out, "</sub>");
    } else if str_eq(name, "a") {
        let text = trim_inline_chars(&render_inline_children(doc, ctx, i));
        match doc.attribute(i, "href") {
            Some(href) => {
                if href.as_str().is_empty() {
                    append_chars(&mut out, &text);
                } else {
                    let resolved = resolve_link_chars(ctx, href.as_str());
                    let label = if text.len() == 0 { sub_chars(&resolved, 0, resolved.len()) } else { text };
                    assert(resolved@.subrange(0, resolved@.len() as int) =~= resolved@);
                    push_str_chars(&mut out, "[");
                    append_chars(&mut out, &label);
                    push_str_chars(&mut out, "](");
                    append_chars(&mut out, &resolved);
                    push_str_chars(&mut out, ")");
                }
            },
            None => {
                append_chars(&mut out, &text);
            },
        }
    } else if str_eq(name, "img") {
        append_chars(&mut out, &image_chars(doc, ctx, i));
    } else if str_eq(name, "br") {
        push_str_chars(&mut out, "\n");
    } else if list {
        append_chars(&mut out, &render_block(doc, ctx, i));
    } else if str_eq(name, "li") {
    } else {
        append_chars(&mut out, &render_inline_children(doc, ctx, i));
    }
    out
}

/// One list item: the marker before its first line, the other lines
/// indented as deep.
fn list_item_chars(marker: &Vec<char>, content: &Vec<char>) -> (r: Vec<char>)
    ensures
        r@ == list_item_text(marker@, content@),
{
    let lines = lines_of(content);
    let ghost ls = lines@.map_values(|v: Vec<char>| v@);
    let ghost target = Seq::new(ls.len(), |k: int| if k == 0 { marker@ + ls[k] } else { repeat(' ', marker@.len()) + ls[k] });
    let mut parts: Vec<Vec<char>> = Vec::new();
    let mut k: usize = 0;
    while k < lines.len()
        invariant
            k <= lines@.len(),
            ls == lines@.map_values(|v: Vec<char>| v@),
            ls == spec_lines(content@),
            target == Seq::new(ls.len(), |k: int| if k == 0 { marker@ + ls[k] } else { repeat(' ', marker@.len()) + ls[k] }),
            parts@.map_values(|v: Vec<char>| v@) == target.take(k as int),
        decreases lines@.len() - k,
    {
        let mut line = if k == 0 { sub_chars(marker, 0, marker.len()) } else { repeat_char(' ', marker.len()) };
        assert(marker@.subrange(0, marker@.len() as int) =~= marker@);
        append_chars(&mut line, &lines[k]);
        let ghost before = parts@.map_values(|v: Vec<char>| v@);
        parts.push(line);
        assert(parts@.map_values(|v: Vec<char>| v@) =~= before.push(line@));
        assert(target.take(k + 1) =~= target.take(k as int).push(target[k as int]));
        k += 1;
    }
    assert(target.take(lines@.len() as int) =~= target);
    join_with(&parts, &chars_of("\n"))
}

fn has_block_child_exec(doc: &XmlDoc, i: usize) -> (r: bool)
    requires
        doc.wf(),
        i < doc.nodes@.len(),
    ensures
        r == has_block_child(doc.view_nodes(), i as int),
{
    let ghost n = doc.view_nodes();
    let kids = doc.children_of(i);
    let mut k: usize = 0;
    while k < kids.len()
        invariant
            k <= kids@.len(),
            n == doc.view_nodes(),
            usize_seq(kids@) == children(n, i as int),
            forall|q: int| 0 <= q < kids@.len() ==> i < #[trigger] kids@[q] < doc.nodes@.len(),
            forall|q: int| 0 <= q < k ==> !(is_elem(n, #[trigger] children(n, i as int)[q])
                && spec_is_block_element(n[children(n, i as int)[q]].name) && n[children(n, i as int)[q]].name != "br"@),
        decreases kids@.len() - k,
    {
        let ch = kids[k];
        assert(usize_seq(kids@)[k as int] == ch as int);
        if doc.is_element(ch) && is_block_element(doc.name(ch)) && !str_eq(doc.name(ch), "br") {
            return true;
        }
        k += 1;
    }
    false
}

/// The Markdown of a list: one item per `li` child, numbered when
/// `ordered`.
pub fn render_list(doc: &XmlDoc, ctx: &RenderContext, i: usize, ordered: bool) -> (r: Vec<char>)
    requires
        doc.wf(),
        i < doc.nodes@.len(),
        items_safe(doc.view_nodes(), ctx_view(*ctx), i as int),
    ensures
        r@ == r_list(doc.view_nodes(), ctx_view(*ctx), i as int, ordered),
    decreases doc.nodes@.len() - i, 5int,
{
    let ghost n = doc.view_nodes();
    let ghost cv = ctx_view(*ctx);
    let kids = doc.children_of(i);
    proof {
        reveal_names();
        lemma_children(n, i as int);
        reveal_strlit(". ");
        reveal_strlit("- ");
    }
    let mut lines: Vec<Vec<char>> = Vec::new();
    let mut index: usize = 1;
    let mut k: usize = 0;
    while k < kids.len()
        invariant
            k <= kids@.len(),
            doc.wf(),
            i < doc.nodes@.len(),
            n == doc.view_nodes(),
            cv == ctx_view(*ctx),
            items_safe(n, cv, i as int),
            usize_seq(kids@) == children(n, i as int),
            kids@.len() <= n.len() < usize::MAX,
            forall|q: int| 0 <= q < kids@.len() ==> i < #[trigger] kids@[q] < doc.nodes@.len(),
            index <= k + 1,
            (lines@.map_values(|v: Vec<char>| v@), index as nat) == list_fold(n, cv, i as int, ordered, k as int),
        decreases kids@.len() - k,
    {
        let ch = kids[k];
        assert(usize_seq(kids@)[k as int] == ch as int);
        proof {
            lemma_items_at(n, cv, i as int, 0, k as int);
        }
        if doc.element_named(ch, "li") {
            let mut marker: Vec<char> = Vec::new();
            if ordered {
                push_decimal(&mut marker, index);
                push_str_chars(&mut marker, ". ");
            } else {
                push_str_chars(&mut marker, "- ");
            }
            let content = if has_block_child_exec(doc, ch) {
                let rendered = render_mixed_block_contents(doc, ctx, ch);
                if trim_chars(&rendered).len() == 0 { render_inline_children(doc, ctx, ch) } else { rendered }
            } else {
                render_inline_children(doc, ctx, ch)
            };
            assert(content@ == item_content(n, cv, ch as int));
            let item = list_item_chars(&marker, &content);
            let ghost before = lines@.map_values(|v: Vec<char>| v@);
            lines.push(item);
            assert(lines@.map_values(|v: Vec<char>| v@) =~= before.push(item@));
            index += 1;
        }
        k += 1;
    }
    join_with(&lines, &chars_of("\n"))
}

fn flush_exec(blocks: &mut Vec<Vec<char>>, buffer: &Vec<char>)
    ensures
        final(blocks)@.map_values(|v: Vec<char>| v@) == flush(old(blocks)@.map_values(|v: Vec<char>| v@), buffer@),
{
    let inline = trim_inline_chars(buffer);
    if inline.len() > 0 {
        let ghost before = blocks@.map_values(|v: Vec<char>| v@);
        blocks.push(inline);
        assert(blocks@.map_values(|v: Vec<char>| v@) =~= before.push(inline@));
    }
}

/// Content that mixes text, inline elements and blocks: each block on
/// its own, the inline runs between them as paragraphs.
pub fn render_mixed_block_contents(doc: &XmlDoc, ctx: &RenderContext, i: usize) -> (r: Vec<char>)
    requires
        doc.wf(),
        i < doc.nodes@.len(),
        kids_safe(doc.view_nodes(), ctx_view(*ctx), i as int, ChildRendering::Mixed),
    ensures
        r@ == r_mixed(doc.view_nodes(), ctx_view(*ctx), i as int),
    decreases doc.nodes@.len() - i, 7int,
{
    let ghost n = doc.view_nodes();
    let ghost cv = ctx_view(*ctx);
    let kids = doc.children_of(i);
    let mut blocks: Vec<Vec<char>> = Vec::new();
    let mut buffer: Vec<char> = Vec::new();
    let mut k: usize = 0;
    while k < kids.len()
        invariant
            k <= kids@.len(),
            doc.wf(),
            i < doc.nodes@.len(),
            n == doc.view_nodes(),
            cv == ctx_view(*ctx),
            kids_safe(n, cv, i as int, ChildRendering::Mixed),
            usize_seq(kids@) == children(n, i as int),
            forall|q: int| 0 <= q < kids@.len() ==> i < #[trigger] kids@[q] < doc.nodes@.len(),
            (blocks@.map_values(|v: Vec<char>| v@), buffer@) == mixed_fold(n, cv, i as int, k as int),
        decreases kids@.len() - k,
    {
        let ch = kids[k];
        assert(usize_seq(kids@)[k as int] == ch as int);
        proof {
            lemma_kid_safe(n, cv, i as int, ChildRendering::Mixed, k as int);
        }
        if doc.is_text(ch) {
            push_str_chars(&mut buffer, doc.text(ch));
        } else if doc.is_element(ch) {
            if is_block_element(doc.name(ch)) {
                flush_exec(&mut blocks, &buffer);
                buffer = Vec::new();
                let rendered = trim_chars(&render_block(doc, ctx, ch));
                if rendered.len() > 0 {
                    let ghost before = blocks@.map_values(|v: Vec<char>| v@);
                    blocks.push(rendered);
                    assert(blocks@.map_values(|v: Vec<char>| v@) =~= before.push(rendered@));
                }
            } else {
                let r = render_inline(doc, ctx, ch);
                append_chars(&mut buffer, &r);
            }
        }
        k += 1;
    }
    flush_exec(&mut blocks, &buffer);
    join_with(&blocks, &chars_of("\n\n"))
}


/// The Markdown of a block element.
pub fn render_block(doc: &XmlDoc, ctx: &RenderContext, i: usize) -> (r: Vec<char>)
    requires
        doc.wf(),
        i < doc.nodes@.len(),
        block_safe(doc.view_nodes(), ctx_view(*ctx), i as int),
        !named(doc.view_nodes(), i as int, "li"@),
    ensures
        r@ == r_block(doc.view_nodes(), ctx_view(*ctx), i as int),
    decreases doc.nodes@.len() - i, block_rank(doc.view_nodes(), i as int),
{
    let ghost n = doc.view_nodes();
    let ghost cv = ctx_view(*ctx);
    proof { reveal_names(); }
    let name = doc.name(i);
    let anchor = anchor_prefix_chars(doc, i);
    proof {
        reveal_strlit(" ");
        reveal_strlit("> ");
        reveal_strlit("\n");
        reveal_strlit("---");
        reveal_strlit("\n\n");
        reveal_strlit("_");
    }
    if is_heading_str(name) {
        let mut out = anchor;
        append_chars(&mut out, &repeat_char('#', heading_level_of(name)));
        push_str_chars(&mut out, " ");
        append_chars(&mut out, &trim_inline_chars(&render_inline_children(doc, ctx, i)));
        out
    } else if str_eq(name, "p") {
        let mut out = anchor;
        append_chars(&mut out, &trim_inline_chars(&render_inline_children(doc, ctx, i)));
        out
    } else if str_eq(name, "ul") {
        render_list(doc, ctx, i, false)
    } else if str_eq(name, "ol") {
        render_list(doc, ctx, i, true)
    } else if str_eq(name, "blockquote") {
        let body = render_mixed_block_contents(doc, ctx, i);
        let lines = lines_of(&body);
        let ghost ls = lines@.map_values(|v: Vec<char>| v@);
        let mut quoted: Vec<Vec<char>> = Vec::new();
        let mut k: usize = 0;
        while k < lines.len()
            invariant
                k <= lines@.len(),
                ls == lines@.map_values(|v: Vec<char>| v@),
                quoted@.map_values(|v: Vec<char>| v@) == ls.take(k as int).map_values(|l: Seq<char>| "> "@ + l),
            decreases lines@.len() - k,
        {
            let mut q = chars_of("> ");
            append_chars(&mut q, &lines[k]);
            let ghost before = quoted@.map_values(|v: Vec<char>| v@);
            quoted.push(q);
            assert(quoted@.map_values(|v: Vec<char>| v@) =~= before.push(q@));
            assert(ls.take(k + 1).map_values(|l: Seq<char>| "> "@ + l)
                =~= ls.take(k as int).map_values(|l: Seq<char>| "> "@ + l).push("> "@ + ls[k as int]));
            k += 1;
        }
        assert(ls.take(lines@.len() as int) =~= ls);
        let mut out = anchor;
        append_chars(&mut out, &join_with(&quoted, &chars_of("\n")));
        out
    } else if str_eq(name, "pre") {
        let code = pre_text_chars(doc, i);
        let mut out = anchor;
        append_chars(&mut out, &chars_of(fenced_code_block(string_of(&code).as_str()).as_str()));
        out
    } else if str_eq(name, "hr") {
        chars_of("---")
    } else if str_eq(name, "table") {
        let mut out = anchor;
        append_chars(&mut out, &render_table(doc, ctx, i));
        out
    } else if str_eq(name, "nav") {
        let mut out = anchor;
        append_chars(&mut out, &render_navigation(doc, ctx, i));
        out
    } else if str_eq(name, "figure") {
        let kids = doc.children_of(i);
        let mut parts: Vec<Vec<char>> = Vec::new();
        let mut k: usize = 0;
        while k < kids.len()
            invariant
                k <= kids@.len(),
                doc.wf(),
                i < doc.nodes@.len(),
                n == doc.view_nodes(),
                cv == ctx_view(*ctx),
                kids_safe(n, cv, i as int, ChildRendering::Blocks),
                usize_seq(kids@) == children(n, i as int),
                forall|q: int| 0 <= q < kids@.len() ==> i < #[trigger] kids@[q] < doc.nodes@.len(),
                parts@.map_values(|v: Vec<char>| v@) == figure_fold(n, cv, i as int, k as int),
            decreases kids@.len() - k,
        {
            let ch = kids[k];
            assert(usize_seq(kids@)[k as int] == ch as int);
            proof { lemma_kid_safe(n, cv, i as int, ChildRendering::Blocks, k as int); }
            if doc.is_element(ch) {
                let b = render_block(doc, ctx, ch);
                if trim_chars(&b).len() > 0 {
                    let ghost before = parts@.map_values(|v: Vec<char>| v@);
                    parts.push(b);
                    assert(parts@.map_values(|v: Vec<char>| v@) =~= before.push(b@));
                }
            }
            k += 1;
        }
        let mut out = anchor;
        append_chars(&mut out, &join_with(&parts, &chars_of("\n\n")));
        out
    } else if str_eq(name, "figcaption") {
        let mut out = chars_of("_");
        append_chars(&mut out, &trim_inline_chars(&render_inline_children(doc, ctx, i)));
        push_str_chars(&mut out, "_");
        out
    } else if is_container_str(name) {
        let mut out = anchor;
        append_chars(&mut out, &render_mixed_block_contents(doc, ctx, i));
        out
    } else if str_eq(name, "img") {
        let mut out = anchor;
        append_chars(&mut out, &image_chars(doc, ctx, i));
        out
    } else if str_eq(name, "li") {
        Vec::new()
    } else {
        trim_inline_chars(&render_inline(doc, ctx, i))
    }
}

fn escape_pipes(v: &Vec<char>) -> (r: Vec<char>)
    ensures
        r@ == spec_replace(v@, "|"@, "\\|"@),
{
    proof {
        reveal_strlit("|");
    }
    let pat = chars_of("|");
    replace_chars(v, &pat, &chars_of("\\|"))
}

fn table_line_chars(cells: &Vec<Vec<char>>) -> (r: Vec<char>)
    ensures
        r@ == table_line(cells@.map_values(|v: Vec<char>| v@)),
{
    let mut out = chars_of("| ");
    append_chars(&mut out, &join_with(cells, &chars_of(" | ")));
    push_str_chars(&mut out, " |");
    out
}

fn padded_row(row: &Vec<Vec<char>>, cc: usize) -> (r: Vec<Vec<char>>)
    ensures
        r@.map_values(|v: Vec<char>| v@) == pad(row@.map_values(|v: Vec<char>| v@), cc as nat),
{
    let ghost rv = row@.map_values(|v: Vec<char>| v@);
    let mut out: Vec<Vec<char>> = Vec::new();
    let mut k: usize = 0;
    while k < cc
        invariant
            k <= cc,
            rv == row@.map_values(|v: Vec<char>| v@),
            out@.map_values(|v: Vec<char>| v@) == pad(rv, cc as nat).take(k as int),
        decreases cc - k,
    {
        let cell = if k < row.len() { sub_chars(&row[k], 0, row[k].len()) } else { Vec::new() };
        proof {
            if k < row@.len() {
                assert(cell@ =~= rv[k as int]);
            }
        }
        let ghost before = out@.map_values(|v: Vec<char>| v@);
        out.push(cell);
        assert(out@.map_values(|v: Vec<char>| v@) =~= before.push(cell@));
        assert(pad(rv, cc as nat).take(k + 1) =~= pad(rv, cc as nat).take(k as int).push(pad(rv, cc as nat)[k as int]));
        k += 1;
    }
    assert(pad(rv, cc as nat).take(cc as int) =~= pad(rv, cc as nat));
    out
}

pub open spec fn rows_view(rows: Seq<Vec<Vec<char>>>) -> Seq<Seq<Seq<char>>> {
    rows.map_values(|r: Vec<Vec<char>>| r@.map_values(|v: Vec<char>| v@))
}

fn table_text_chars(rows: &Vec<Vec<Vec<char>>>) -> (r: Vec<char>)
    requires
        rows@.len() > 0,
    ensures
        r@ == table_text(rows_view(rows@)),
{
    let ghost rv = rows_view(rows@);
    let mut cc: usize = 0;
    let mut k: usize = 0;
    while k < rows.len()
        invariant
            k <= rows@.len(),
            rv == rows_view(rows@),
            cc == max_len(rv.take(k as int)),
        decreases rows@.len() - k,
    {
        assert(rv.take(k + 1).drop_last() =~= rv.take(k as int));
        assert(rv[k as int].len() == rows@[k as int]@.len());
        if rows[k].len() > cc {
            cc = rows[k].len();
        }
        k += 1;
    }
    assert(rv.take(rows@.len() as int) =~= rv);
    let mut lines: Vec<Vec<char>> = Vec::new();
    lines.push(table_line_chars(&padded_row(&rows[0], cc)));
    let mut rule: Vec<Vec<char>> = Vec::new();
    let mut q: usize = 0;
    proof { reveal_strlit("---"); }
    while q < cc
        invariant
            q <= cc,
            rule@.map_values(|v: Vec<char>| v@) == Seq::new(q as nat, |j: int| "---"@),
        decreases cc - q,
    {
        let ghost before = rule@.map_values(|v: Vec<char>| v@);
        let d = chars_of("---");
        rule.push(d);
        assert(rule@.map_values(|v: Vec<char>| v@) =~= before.push(d@));
        assert(rule@.map_values(|v: Vec<char>| v@) =~= Seq::new((q + 1) as nat, |j: int| "---"@));
        q += 1;
    }
    lines.push(table_line_chars(&rule));
    let ghost head = lines@.map_values(|v: Vec<char>| v@);
    let mut k: usize = 1;
    while k < rows.len()
        invariant
            1 <= k <= rows@.len(),
            rv == rows_view(rows@),
            cc == max_len(rv),
            lines@.map_values(|v: Vec<char>| v@) == head + Seq::new((k - 1) as nat, |j: int| table_line(pad(rv[j + 1], cc as nat))),
        decreases rows@.len() - k,
    {
        let line = table_line_chars(&padded_row(&rows[k], cc));
        assert(rows@[k as int]@.map_values(|v: Vec<char>| v@) == rv[k as int]);
        let ghost before = lines@.map_values(|v: Vec<char>| v@);
        lines.push(line);
        assert(lines@.map_values(|v: Vec<char>| v@) =~= before.push(line@));
        assert(line@ == table_line(pad(rv[k as int], cc as nat)));
        assert(lines@.map_values(|v: Vec<char>| v@) =~= head + Seq::new(k as nat, |j: int| table_line(pad(rv[j + 1], cc as nat))));
        k += 1;
    }
    assert(rows@[0]@.map_values(|v: Vec<char>| v@) == rv[0]);
    assert(lines@.map_values(|v: Vec<char>| v@) =~= seq![table_line(pad(rv[0], cc as nat)), table_line(Seq::new(cc as nat, |k: int| "---"@))]
        + Seq::new((rv.len() - 1) as nat, |k: int| table_line(pad(rv[k + 1], cc as nat))));
    join_with(&lines, &chars_of("\n"))
}

/// A table as a Markdown table, or its text when it has no rows.
pub fn render_table(doc: &XmlDoc, ctx: &RenderContext, i: usize) -> (r: Vec<char>)
    requires
        doc.wf(),
        i < doc.nodes@.len(),
        table_safe(doc.view_nodes(), ctx_view(*ctx), i as int),
    ensures
        r@ == r_table(doc.view_nodes(), ctx_view(*ctx), i as int),
    decreases doc.nodes@.len() - i, 8int,
{
    let ghost n = doc.view_nodes();
    let ghost cv = ctx_view(*ctx);
    let d = doc.descendants(i);
    proof { reveal_names(); }
    let mut rows: Vec<Vec<Vec<char>>> = Vec::new();
    let mut k: usize = 0;
    while k < d.len()
        invariant
            k <= d@.len(),
            doc.wf(),
            i < doc.nodes@.len(),
            n == doc.view_nodes(),
            cv == ctx_view(*ctx),
            usize_seq(d@) == desc(n, i as int),
            forall|q: int| 0 <= q < d@.len() ==> i <= #[trigger] d@[q] < doc.nodes@.len(),
            table_safe(n, cv, i as int),
            rows@.len() == 0 ==> forall|k2: int, q2: int| k2 < k ==> !#[trigger] table_cell(n, i as int, k2, q2),
            rows_view(rows@) == rows_fold(n, cv, i as int, k as int),
        decreases d@.len() - k,
    {
        let row = d[k];
        assert(usize_seq(d@)[k as int] == row as int);
        if doc.element_named(row, "tr") {
            let kids = doc.children_of(row);
            let mut cells: Vec<Vec<char>> = Vec::new();
            let mut q: usize = 0;
            while q < kids.len()
                invariant
                    q <= kids@.len(),
                    doc.wf(),
                    row < doc.nodes@.len(),
                    i <= row,
                    n == doc.view_nodes(),
                    cv == ctx_view(*ctx),
                    table_safe(n, cv, i as int),
                    0 <= k < desc(n, i as int).len(),
                    row as int == desc(n, i as int)[k as int],
                    named(n, row as int, "tr"@),
                    cells@.len() == 0 ==> forall|q2: int| 0 <= q2 < q ==> !(is_cell(n, #[trigger] children(n, row as int)[q2])
                        && children(n, row as int)[q2] > i),
                    usize_seq(kids@) == children(n, row as int),
                    forall|z: int| 0 <= z < kids@.len() ==> row < #[trigger] kids@[z] < doc.nodes@.len(),
                    cells@.map_values(|v: Vec<char>| v@) == cells_fold(n, cv, i as int, row as int, q as int),
                decreases kids@.len() - q,
            {
                let cell = kids[q];
                assert(usize_seq(kids@)[q as int] == cell as int);
                if (doc.element_named(cell, "th") || doc.element_named(cell, "td")) && cell > i {
                    proof {
                        assert(table_cell(n, i as int, k as int, q as int));
                        assert(has_rows(n, i as int));
                        lemma_rows_at(n, cv, i as int, 0, k as int);
                        lemma_cells_at(n, cv, i as int, row as int, 0, q as int);
                    }
                    let t = escape_pipes(&trim_inline_chars(&render_inline_children(doc, ctx, cell)));
                    let ghost before = cells@.map_values(|v: Vec<char>| v@);
                    cells.push(t);
                    assert(cells@.map_values(|v: Vec<char>| v@) =~= before.push(t@));
                }
                q += 1;
            }
            proof {
                if cells@.len() == 0 && rows@.len() == 0 {
                    assert forall|k2: int, q2: int| k2 < k + 1 implies !#[trigger] table_cell(n, i as int, k2, q2) by {
                        if k2 == k && table_cell(n, i as int, k2, q2) {
                            assert(desc(n, i as int)[k2] == row as int);
                            assert(is_cell(n, children(n, row as int)[q2]));
                        }
                    }
                }
            }
            if cells.len() > 0 {
                let ghost before = rows_view(rows@);
                let ghost cv2 = cells@.map_values(|v: Vec<char>| v@);
                rows.push(cells);
                assert(rows_view(rows@) =~= before.push(cv2));
            }
        }
        k += 1;
    }
    if rows.len() == 0 {
        proof {
            assert(!has_rows(n, i as int));
        }
        trim_inline_chars(&render_inline_children(doc, ctx, i))
    } else {
        table_text_chars(&rows)
    }
}

/// `[text](target)` for a link of a navigation block.
pub fn render_nav_link(doc: &XmlDoc, ctx: &RenderContext, a: usize) -> (r: Option<Vec<char>>)
    requires
        doc.wf(),
        a < doc.nodes@.len(),
        href_nonempty(doc.view_nodes(), a as int) ==> kids_safe(doc.view_nodes(), ctx_view(*ctx), a as int, ChildRendering::Inline),
    ensures
        match r {
            Some(v) => nav_link(doc.view_nodes(), ctx_view(*ctx), a as int) == Some(v@),
            None => nav_link(doc.view_nodes(), ctx_view(*ctx), a as int) is None,
        },
    decreases doc.nodes@.len() - a, 6int,
{
    proof {
        reveal_strlit("[");
        reveal_strlit("](");
        reveal_strlit(")");
    }
    match doc.attribute(a, "href") {
        Some(href) => {
            if href.as_str().is_empty() {
                return None;
            }
            let text = trim_inline_chars(&render_inline_children(doc, ctx, a));
            if text.len() == 0 {
                return None;
            }
            let mut out = chars_of("[");
            append_chars(&mut out, &text);
            push_str_chars(&mut out, "](");
            append_chars(&mut out, &resolve_link_chars(ctx, href.as_str()));
            push_str_chars(&mut out, ")");
            Some(out)
        },
        None => None,
    }
}

fn has_list_below_exec(doc: &XmlDoc, i: usize, d: &Vec<usize>) -> (r: bool)
    requires
        doc.wf(),
        i < doc.nodes@.len(),
        usize_seq(d@) == desc(doc.view_nodes(), i as int),
        forall|q: int| 0 <= q < d@.len() ==> i <= #[trigger] d@[q] < doc.nodes@.len(),
    ensures
        r == has_list_below(doc.view_nodes(), i as int),
{
    let ghost n = doc.view_nodes();
    let mut k: usize = 0;
    while k < d.len()
        invariant
            k <= d@.len(),
            n == doc.view_nodes(),
            usize_seq(d@) == desc(n, i as int),
            forall|q: int| 0 <= q < d@.len() ==> i <= #[trigger] d@[q] < doc.nodes@.len(),
            forall|q: int| 0 <= q < k ==> !is_list(n, #[trigger] desc(n, i as int)[q]),
        decreases d@.len() - k,
    {
        let j = d[k];
        assert(usize_seq(d@)[k as int] == j as int);
        if doc.element_named(j, "ul") || doc.element_named(j, "ol") {
            return true;
        }
        k += 1;
    }
    false
}

fn nav_links_exec(doc: &XmlDoc, ctx: &RenderContext, i: usize, d: &Vec<usize>) -> (r: Vec<Vec<char>>)
    requires
        doc.wf(),
        i < doc.nodes@.len(),
        usize_seq(d@) == desc(doc.view_nodes(), i as int),
        forall|q: int| 0 <= q < d@.len() ==> i <= #[trigger] d@[q] < doc.nodes@.len(),
        links_from(doc.view_nodes(), ctx_view(*ctx), i as int, 0),
    ensures
        r@.map_values(|v: Vec<char>| v@) == links_fold(doc.view_nodes(), ctx_view(*ctx), i as int, desc(doc.view_nodes(), i as int).len() as int),
    decreases doc.nodes@.len() - i, 7int,
{
    let ghost n = doc.view_nodes();
    let ghost cv = ctx_view(*ctx);
    proof { reveal_names(); }
    let mut links: Vec<Vec<char>> = Vec::new();
    let mut k: usize = 0;
    while k < d.len()
        invariant
            k <= d@.len(),
            doc.wf(),
            i < doc.nodes@.len(),
            n == doc.view_nodes(),
            cv == ctx_view(*ctx),
            usize_seq(d@) == desc(n, i as int),
            forall|q: int| 0 <= q < d@.len() ==> i <= #[trigger] d@[q] < doc.nodes@.len(),
            links_from(n, cv, i as int, 0),
            links@.map_values(|v: Vec<char>| v@) == links_fold(n, cv, i as int, k as int),
        decreases d@.len() - k,
    {
        let a = d[k];
        assert(usize_seq(d@)[k as int] == a as int);
        if doc.element_named(a, "a") && a >= i {
            proof { lemma_links_at(n, cv, i as int, 0, k as int); }
            match render_nav_link(doc, ctx, a) {
                Some(l) => {
                    let ghost before = links@.map_values(|v: Vec<char>| v@);
                    links.push(l);
                    assert(links@.map_values(|v: Vec<char>| v@) =~= before.push(l@));
                },
                None => {},
            }
        }
        k += 1;
    }
    assert(usize_seq(d@).len() == d@.len());
    links
}

fn first_heading_exec(doc: &XmlDoc, i: usize, d: &Vec<usize>) -> (r: Option<usize>)
    requires
        doc.wf(),
        i < doc.nodes@.len(),
        usize_seq(d@) == desc(doc.view_nodes(), i as int),
        forall|q: int| 0 <= q < d@.len() ==> i <= #[trigger] d@[q] < doc.nodes@.len(),
    ensures
        match r {
            Some(h) => first_heading(doc.view_nodes(), desc(doc.view_nodes(), i as int)) == Some(h as int)
                && i <= h < doc.nodes@.len() && exists|q: int| 0 <= q < d@.len() && d@[q] == h,
            None => first_heading(doc.view_nodes(), desc(doc.view_nodes(), i as int)) is None,
        },
{
    let ghost n = doc.view_nodes();
    let ghost dv = desc(n, i as int);
    let mut k: usize = 0;
    assert(dv.skip(0) =~= dv);
    while k < d.len()
        invariant
            k <= d@.len(),
            n == doc.view_nodes(),
            dv == desc(n, i as int),
            usize_seq(d@) == dv,
            forall|q: int| 0 <= q < d@.len() ==> i <= #[trigger] d@[q] < doc.nodes@.len(),
            first_heading(n, dv.skip(k as int)) == first_heading(n, dv),
        decreases d@.len() - k,
    {
        let j = d[k];
        assert(usize_seq(d@)[k as int] == j as int);
        assert(dv.skip(k as int)[0] == j as int);
        if doc.is_element(j) && is_heading_str(doc.name(j)) {
            return Some(j);
        }
        assert(dv.skip(k as int).drop_first() =~= dv.skip(k + 1));
        k += 1;
    }
    assert(dv.skip(k as int) =~= Seq::<int>::empty());
    None
}

/// A navigation block.
pub fn render_navigation(doc: &XmlDoc, ctx: &RenderContext, i: usize) -> (r: Vec<char>)
    requires
        doc.wf(),
        i < doc.nodes@.len(),
        nav_safe(doc.view_nodes(), ctx_view(*ctx), i as int),
    ensures
        r@ == r_nav(doc.view_nodes(), ctx_view(*ctx), i as int),
    decreases doc.nodes@.len() - i, 8int,
{
    let ghost n = doc.view_nodes();
    let ghost cv = ctx_view(*ctx);
    let rendered = render_mixed_block_contents(doc, ctx, i);
    let d = doc.descendants(i);
    proof { reveal_names(); }
    let has_list = has_list_below_exec(doc, i, &d);
    if has_list {
        return rendered;
    }
    let links = nav_links_exec(doc, ctx, i, &d);
    if links.len() < 2 {
        return rendered;
    }
    proof {
        reveal_strlit(" ");
        reveal_strlit("- ");
        reveal_strlit("\n");
        reveal_strlit("\n\n");
    }
    let mut blocks: Vec<Vec<char>> = Vec::new();
    match first_heading_exec(doc, i, &d) {
        Some(hh) => {
            proof {
                assert(kids_safe(n, cv, hh as int, ChildRendering::Inline));
            }
            let text = trim_inline_chars(&render_inline_children(doc, ctx, hh));
            if text.len() > 0 {
                let level = heading_level_of(doc.name(hh));
                let mut line = repeat_char('#', if level < 2 { 2 } else { level });
                push_str_chars(&mut line, " ");
                append_chars(&mut line, &text);
                blocks.push(line);
                assert(blocks@.map_values(|v: Vec<char>| v@) =~= seq![line@]);
            } else {
                assert(blocks@.map_values(|v: Vec<char>| v@) =~= Seq::<Seq<char>>::empty());
            }
        },
        None => {
            assert(blocks@.map_values(|v: Vec<char>| v@) =~= Seq::<Seq<char>>::empty());
        },
    }
    let mut items: Vec<Vec<char>> = Vec::new();
    let mut k: usize = 0;
    let ghost lv = links@.map_values(|v: Vec<char>| v@);
    while k < links.len()
        invariant
            k <= links@.len(),
            lv == links@.map_values(|v: Vec<char>| v@),
            items@.map_values(|v: Vec<char>| v@) == lv.take(k as int).map_values(|l: Seq<char>| "- "@ + l),
        decreases links@.len() - k,
    {
        let mut item = chars_of("- ");
        append_chars(&mut item, &links[k]);
        let ghost before = items@.map_values(|v: Vec<char>| v@);
        items.push(item);
        assert(items@.map_values(|v: Vec<char>| v@) =~= before.push(item@));
        assert(lv.take(k + 1).map_values(|l: Seq<char>| "- "@ + l)
            =~= lv.take(k as int).map_values(|l: Seq<char>| "- "@ + l).push("- "@ + lv[k as int]));
        k += 1;
    }
    assert(lv.take(links@.len() as int) =~= lv);
    let list = join_with(&items, &chars_of("\n"));
    let ghost before = blocks@.map_values(|v: Vec<char>| v@);
    blocks.push(list);
    assert(blocks@.map_values(|v: Vec<char>| v@) =~= before.push(list@));
    join_with(&blocks, &chars_of("\n\n"))
}


/// Whether rendering `i` as a block meets no list item.
pub fn check_block_safe(doc: &XmlDoc, ctx: &RenderContext, i: usize) -> (r: bool)
    requires
        doc.wf(),
        i < doc.nodes@.len(),
    ensures
        r == block_safe(doc.view_nodes(), ctx_view(*ctx), i as int),
    decreases doc.nodes@.len() - i, 7int, 0int,
{
    let name = doc.name(i);
    if is_heading_str(name) || str_eq(name, "p") {
        check_kids_safe(doc, ctx, i, ChildRendering::Inline)
    } else if str_eq(name, "ul") || str_eq(name, "ol") {
        check_items_from(doc, ctx, i, 0)
    } else if str_eq(name, "blockquote") {
        check_kids_safe(doc, ctx, i, ChildRendering::Mixed)
    } else if str_eq(name, "pre") || str_eq(name, "hr") {
        true
    } else if str_eq(name, "table") {
        check_table_safe(doc, ctx, i)
    } else if str_eq(name, "nav") {
        check_nav_safe(doc, ctx, i)
    } else if str_eq(name, "figure") {
        check_kids_safe(doc, ctx, i, ChildRendering::Blocks)
    } else if str_eq(name, "figcaption") {
        check_kids_safe(doc, ctx, i, ChildRendering::Inline)
    } else if is_container_str(name) {
        check_kids_safe(doc, ctx, i, ChildRendering::Mixed)
    } else if str_eq(name, "img") {
        true
    } else if str_eq(name, "li") {
        false
    } else {
        check_inline_safe(doc, ctx, i)
    }
}

/// Whether rendering `i` as an inline element meets no list item.
pub fn check_inline_safe(doc: &XmlDoc, ctx: &RenderContext, i: usize) -> (r: bool)
    requires
        doc.wf(),
        i < doc.nodes@.len(),
    ensures
        r == inline_safe(doc.view_nodes(), ctx_view(*ctx), i as int),
    decreases doc.nodes@.len() - i, 6int, 0int,
{
    let name = doc.name(i);
    if str_eq(name, "strong") || str_eq(name, "b") || str_eq(name, "em") || str_eq(name, "i")
        || str_eq(name, "code") || str_eq(name, "sup") || str_eq(name, "sub") || str_eq(name, "a") {
        check_kids_safe(doc, ctx, i, ChildRendering::Inline)
    } else if str_eq(name, "img") || str_eq(name, "br") {
        true
    } else if doc.element_named(i, "ul") || doc.element_named(i, "ol") {
        check_items_from(doc, ctx, i, 0)
    } else if str_eq(name, "li") {
        false
    } else {
        check_kids_safe(doc, ctx, i, ChildRendering::Inline)
    }
}

fn check_child_safe(doc: &XmlDoc, ctx: &RenderContext, c: usize, how: ChildRendering) -> (r: bool)
    requires
        doc.wf(),
        c < doc.nodes@.len(),
    ensures
        r == child_safe(doc.view_nodes(), ctx_view(*ctx), c as int, how),
    decreases doc.nodes@.len() - c, 8int, 0int,
{
    if doc.element_named(c, "li") {
        return false;
    }
    match how {
        ChildRendering::Inline => check_inline_safe(doc, ctx, c),
        ChildRendering::Mixed => if is_block_element(doc.name(c)) {
            check_block_safe(doc, ctx, c)
        } else {
            check_inline_safe(doc, ctx, c)
        },
        ChildRendering::Blocks => check_block_safe(doc, ctx, c),
    }
}

/// Whether rendering the children of `i` as `how` says meets no list item.
pub fn check_kids_safe(doc: &XmlDoc, ctx: &RenderContext, i: usize, how: ChildRendering) -> (r: bool)
    requires
        doc.wf(),
        i < doc.nodes@.len(),
    ensures
        r == kids_safe(doc.view_nodes(), ctx_view(*ctx), i as int, how),
    decreases doc.nodes@.len() - i, 3int, 0int,
{
    check_kids_from(doc, ctx, i, how, 0)
}

fn check_kids_from(doc: &XmlDoc, ctx: &RenderContext, i: usize, how: ChildRendering, k: usize) -> (r: bool)
    requires
        doc.wf(),
        i < doc.nodes@.len(),
        k <= children(doc.view_nodes(), i as int).len(),
    ensures
        r == kids_from(doc.view_nodes(), ctx_view(*ctx), i as int, how, k as int),
    decreases doc.nodes@.len() - i, 2int, children(doc.view_nodes(), i as int).len() - k,
{
    let kids = doc.children_of(i);
    if k >= kids.len() {
        return true;
    }
    let c = kids[k];
    assert(usize_seq(kids@)[k as int] == c as int);
    if doc.is_element(c) && !check_child_safe(doc, ctx, c, how) {
        return false;
    }
    check_kids_from(doc, ctx, i, how, k + 1)
}

fn check_items_from(doc: &XmlDoc, ctx: &RenderContext, i: usize, k: usize) -> (r: bool)
    requires
        doc.wf(),
        i < doc.nodes@.len(),
        k <= children(doc.view_nodes(), i as int).len(),
    ensures
        r == items_from(doc.view_nodes(), ctx_view(*ctx), i as int, k as int),
    decreases doc.nodes@.len() - i, 2int, children(doc.view_nodes(), i as int).len() - k,
{
    let kids = doc.children_of(i);
    if k >= kids.len() {
        return true;
    }
    let c = kids[k];
    assert(usize_seq(kids@)[k as int] == c as int);
    if doc.element_named(c, "li") && !check_item_safe(doc, ctx, c) {
        return false;
    }
    check_items_from(doc, ctx, i, k + 1)
}

fn check_item_safe(doc: &XmlDoc, ctx: &RenderContext, li: usize) -> (r: bool)
    requires
        doc.wf(),
        li < doc.nodes@.len(),
    ensures
        r == item_safe(doc.view_nodes(), ctx_view(*ctx), li as int),
    decreases doc.nodes@.len() - li, 4int, 0int,
{
    if has_block_child_exec(doc, li) {
        if !check_kids_safe(doc, ctx, li, ChildRendering::Mixed) {
            return false;
        }
        let rendered = render_mixed_block_contents(doc, ctx, li);
        if trim_chars(&rendered).len() == 0 {
            check_kids_safe(doc, ctx, li, ChildRendering::Inline)
        } else {
            true
        }
    } else {
        check_kids_safe(doc, ctx, li, ChildRendering::Inline)
    }
}

fn check_table_safe(doc: &XmlDoc, ctx: &RenderContext, i: usize) -> (r: bool)
    requires
        doc.wf(),
        i < doc.nodes@.len(),
    ensures
        r == table_safe(doc.view_nodes(), ctx_view(*ctx), i as int),
    decreases doc.nodes@.len() - i, 4int, 0int,
{
    let ghost n = doc.view_nodes();
    let d = doc.descendants(i);
    let mut found = false;
    let mut k: usize = 0;
    while k < d.len() && !found
        invariant
            k <= d@.len(),
            doc.wf(),
            n == doc.view_nodes(),
            usize_seq(d@) == desc(n, i as int),
            forall|q: int| 0 <= q < d@.len() ==> i <= #[trigger] d@[q] < doc.nodes@.len(),
            found ==> has_rows(n, i as int),
            !found ==> forall|k2: int, q2: int| k2 < k ==> !#[trigger] table_cell(n, i as int, k2, q2),
        decreases d@.len() - k,
    {
        let row = d[k];
        assert(usize_seq(d@)[k as int] == row as int);
        if doc.element_named(row, "tr") {
            let kids = doc.children_of(row);
            let mut q: usize = 0;
            while q < kids.len() && !found
                invariant
                    q <= kids@.len(),
                    n == doc.view_nodes(),
                    0 <= k < desc(n, i as int).len(),
                    row as int == desc(n, i as int)[k as int],
                    named(n, row as int, "tr"@),
                    usize_seq(kids@) == children(n, row as int),
                    forall|z: int| 0 <= z < kids@.len() ==> row < #[trigger] kids@[z] < doc.nodes@.len(),
                    found ==> has_rows(n, i as int),
                    !found ==> forall|q2: int| 0 <= q2 < q ==> !(is_cell(n, #[trigger] children(n, row as int)[q2])
                        && children(n, row as int)[q2] > i),
                decreases kids@.len() - q,
            {
                let cell = kids[q];
                assert(usize_seq(kids@)[q as int] == cell as int);
                if (doc.element_named(cell, "th") || doc.element_named(cell, "td")) && cell > i {
                    assert(table_cell(n, i as int, k as int, q as int));
                    found = true;
                }
                q += 1;
            }
            proof {
                if !found {
                    assert forall|k2: int, q2: int| k2 < k + 1 implies !#[trigger] table_cell(n, i as int, k2, q2) by {
                        if k2 == k && table_cell(n, i as int, k2, q2) {
                            assert(is_cell(n, children(n, row as int)[q2]));
                        }
                    }
                }
            }
        } else {
            proof {
                if !found {
                    assert forall|k2: int, q2: int| k2 < k + 1 implies !#[trigger] table_cell(n, i as int, k2, q2) by {
                        if k2 == k {
                            assert(desc(n, i as int)[k2] == row as int);
                        }
                    }
                }
            }
        }
        k += 1;
    }
    if found {
        check_rows_from(doc, ctx, i, &d, 0)
    } else {
        proof {
            assert(!has_rows(n, i as int));
        }
        check_kids_safe(doc, ctx, i, ChildRendering::Inline)
    }
}

fn check_rows_from(doc: &XmlDoc, ctx: &RenderContext, i: usize, d: &Vec<usize>, k: usize) -> (r: bool)
    requires
        doc.wf(),
        i < doc.nodes@.len(),
        usize_seq(d@) == desc(doc.view_nodes(), i as int),
        forall|q: int| 0 <= q < d@.len() ==> i <= #[trigger] d@[q] < doc.nodes@.len(),
        k <= d@.len(),
    ensures
        r == rows_from(doc.view_nodes(), ctx_view(*ctx), i as int, k as int),
    decreases doc.nodes@.len() - i, 2int, desc(doc.view_nodes(), i as int).len() - k,
{
    if k >= d.len() {
        return true;
    }
    let row = d[k];
    assert(usize_seq(d@)[k as int] == row as int);
    if doc.element_named(row, "tr") && !check_cells_from(doc, ctx, i, row, 0) {
        return false;
    }
    check_rows_from(doc, ctx, i, d, k + 1)
}

fn check_cells_from(doc: &XmlDoc, ctx: &RenderContext, i: usize, row: usize, q: usize) -> (r: bool)
    requires
        doc.wf(),
        i < doc.nodes@.len(),
        row < doc.nodes@.len(),
        q <= children(doc.view_nodes(), row as int).len(),
    ensures
        r == cells_from(doc.view_nodes(), ctx_view(*ctx), i as int, row as int, q as int),
    decreases doc.nodes@.len() - i, 1int, children(doc.view_nodes(), row as int).len() - q,
{
    let kids = doc.children_of(row);
    if q >= kids.len() {
        return true;
    }
    let cell = kids[q];
    assert(usize_seq(kids@)[q as int] == cell as int);
    if (doc.element_named(cell, "th") || doc.element_named(cell, "td")) && cell > i
        && !check_kids_safe(doc, ctx, cell, ChildRendering::Inline) {
        return false;
    }
    check_cells_from(doc, ctx, i, row, q + 1)
}

fn check_nav_safe(doc: &XmlDoc, ctx: &RenderContext, i: usize) -> (r: bool)
    requires
        doc.wf(),
        i < doc.nodes@.len(),
    ensures
        r == nav_safe(doc.view_nodes(), ctx_view(*ctx), i as int),
    decreases doc.nodes@.len() - i, 5int, 0int,
{
    if !check_kids_safe(doc, ctx, i, ChildRendering::Mixed) {
        return false;
    }
    let d = doc.descendants(i);
    if has_list_below_exec(doc, i, &d) {
        return true;
    }
    if !check_links_from(doc, ctx, i, &d, 0) {
        return false;
    }
    let links = nav_links_exec(doc, ctx, i, &d);
    if links.len() < 2 {
        return true;
    }
    match first_heading_exec(doc, i, &d) {
        Some(h) => check_kids_safe(doc, ctx, h, ChildRendering::Inline),
        None => true,
    }
}

fn check_links_from(doc: &XmlDoc, ctx: &RenderContext, i: usize, d: &Vec<usize>, k: usize) -> (r: bool)
    requires
        doc.wf(),
        i < doc.nodes@.len(),
        usize_seq(d@) == desc(doc.view_nodes(), i as int),
        forall|q: int| 0 <= q < d@.len() ==> i <= #[trigger] d@[q] < doc.nodes@.len(),
        k <= d@.len(),
    ensures
        r == links_from(doc.view_nodes(), ctx_view(*ctx), i as int, k as int),
    decreases doc.nodes@.len() - i, 4int, desc(doc.view_nodes(), i as int).len() - k,
{
    if k >= d.len() {
        return true;
    }
    let a = d[k];
    assert(usize_seq(d@)[k as int] == a as int);
    if doc.element_named(a, "a") && a >= i {
        let nonempty = match doc.attribute(a, "href") {
            Some(h) => !h.as_str().is_empty(),
            None => false,
        };
        if nonempty && !check_kids_safe(doc, ctx, a, ChildRendering::Inline) {
            return false;
        }
    }
    check_links_from(doc, ctx, i, d, k + 1)
}

} // verus!

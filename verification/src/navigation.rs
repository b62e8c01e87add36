//! The book's navigation: the EPUB 3 `nav` document, the EPUB 2 NCX, or
//! the links of the package itself.
use vstd::prelude::*;
use vstd::utf8::{valid_utf8, decode_utf8};
use crate::text::{
    chars_of, string_of, append_chars, trim, trim_chars, to_lowercase, lowercase, str_eq, is_whitespace, is_ws,
    spec_trim_inline, chars_eq_ignore_ascii_case, eq_ignore_ascii_case,
};
use crate::regex_calls::regex_replaced_first;
use crate::xml::{XmlDoc, NodeView, XmlKind, XmlAttribute, attr_view, node_view, spec_parse_doc, children, desc, usize_seq, first_named, spec_collapsed_text, first_element, opt_chars, lemma_children, attribute_in};
use crate::render::{named, valid, attr, is_elem, is_list};
use crate::content::{utf8_text, strip_doctype, doctype_pattern};
use crate::paths::{spec_remove_fragment, spec_fragment, spec_join_path, spec_normalize_path, parent_dir, spec_parent_dir};
use crate::book::nav_point_from_href;
use crate::assets::{contains_seq, has_suffix, contains_str, ends_with_str, item_view, live_items_from, live_items, clone_item, entries_view};
use crate::textmap::TextMap;
use crate::model::{NavPoint, ManifestItem, opt_view, clone_opt_string, opt_string_eq};

verus! {

broadcast use vstd::string::group_string_axioms;

/// A navigation entry as plain values: title, document, fragment, depth.
pub type NavView = (Seq<char>, Seq<char>, Option<Seq<char>>, nat);

pub open spec fn nav_view(p: NavPoint) -> NavView {
    (p.title@, p.epub_path@, opt_view(p.fragment), p.depth as nat)
}

pub open spec fn nav_views(s: Seq<NavPoint>) -> Seq<NavView> {
    s.map_values(|p: NavPoint| nav_view(p))
}

/// The entry that a link `href` with text `title` gives, relative to
/// `base`.
pub open spec fn nav_entry(title: Seq<char>, href: Seq<char>, base: Seq<char>, depth: nat) -> NavView {
    (spec_trim_inline(title), spec_normalize_path(spec_join_path(base, spec_remove_fragment(href))), spec_fragment(href), depth)
}

/// The first child element of `i` named `name`.
pub open spec fn first_child_named(n: Seq<NodeView>, i: int, name: Seq<char>) -> Option<int> {
    first_named(n, children(n, i), name)
}

/// The title of an NCX `navPoint`: the text of the `text` element of its
/// `navLabel`, or the whole label's text.
pub open spec fn ncx_title(n: Seq<NodeView>, i: int) -> Option<Seq<char>> {
    match first_child_named(n, i, "navLabel"@) {
        Some(label) => {
            let from_text = match first_named(n, desc(n, label), "text"@) {
                Some(t) => spec_collapsed_text(n, t),
                None => None,
            };
            if from_text is Some { from_text } else { spec_collapsed_text(n, label) }
        },
        None => None,
    }
}

pub open spec fn ncx_source(n: Seq<NodeView>, i: int) -> Option<Seq<char>> {
    match first_child_named(n, i, "content"@) {
        Some(c) => attr(n, c, "src"@),
        None => None,
    }
}

/// The entries of an NCX `navPoint` and of the `navPoint`s inside it, in
/// document order, from `depth` down.
pub open spec fn ncx_collect(n: Seq<NodeView>, i: int, base: Seq<char>, depth: nat) -> Seq<NavView>
    decreases n.len() - i, 1int, 0int,
{
    if !valid(n, i) {
        Seq::empty()
    } else {
        let own = match (ncx_title(n, i), ncx_source(n, i)) {
            (Some(t), Some(s)) => seq![nav_entry(t, s, base, depth)],
            _ => Seq::empty(),
        };
        own + ncx_fold(n, i, base, depth + 1, children(n, i).len() as int)
    }
}

pub open spec fn ncx_fold(n: Seq<NodeView>, i: int, base: Seq<char>, depth: nat, k: int) -> Seq<NavView>
    decreases n.len() - i, 0int, k,
{
    if !valid(n, i) || k <= 0 || k > children(n, i).len() {
        Seq::empty()
    } else {
        let before = ncx_fold(n, i, base, depth, k - 1);
        let c = children(n, i)[k - 1];
        proof { lemma_children(n, i); }
        if named(n, c, "navPoint"@) { before + ncx_collect(n, c, base, depth) } else { before }
    }
}

fn nav_point_view_of(title: String, href: &str, base: &str, depth: usize) -> (r: NavPoint)
    ensures
        nav_view(r) == nav_entry(title@, href@, base@, depth as nat),
{
    nav_point_from_href(title, href, base, depth)
}

fn first_child_named_exec(doc: &XmlDoc, i: usize, name: &str) -> (r: Option<usize>)
    requires
        doc.wf(),
        i < doc.nodes@.len(),
    ensures
        match r {
            Some(j) => first_child_named(doc.view_nodes(), i as int, name@) == Some(j as int) && i < j < doc.nodes@.len(),
            None => first_child_named(doc.view_nodes(), i as int, name@) is None,
        },
{
    let kids = doc.children_of(i);
    match doc.first_in(kids, name) {
        Some(j) => {
            proof {
                let k = choose|k: int| 0 <= k < kids@.len() && kids@[k] == j;
                assert(kids@[k] > i);
            }
            Some(j)
        },
        None => None,
    }
}

fn ncx_title_exec(doc: &XmlDoc, i: usize) -> (r: Option<String>)
    requires
        doc.wf(),
        i < doc.nodes@.len(),
    ensures
        opt_chars(r) == ncx_title(doc.view_nodes(), i as int),
{
    match first_child_named_exec(doc, i, "navLabel") {
        Some(label) => {
            let from_text = match doc.find_descendant(label, "text") {
                Some(t) => doc.collapsed_text(t),
                None => None,
            };
            if from_text.is_some() { from_text } else { doc.collapsed_text(label) }
        },
        None => None,
    }
}

fn ncx_source_exec(doc: &XmlDoc, i: usize) -> (r: Option<String>)
    requires
        doc.wf(),
        i < doc.nodes@.len(),
    ensures
        opt_chars(r) == ncx_source(doc.view_nodes(), i as int),
{
    match first_child_named_exec(doc, i, "content") {
        Some(c) => doc.attribute(c, "src"),
        None => None,
    }
}

fn collect_ncx_point(doc: &XmlDoc, i: usize, base_directory: &str, depth: usize, points: &mut Vec<NavPoint>)
    requires
        doc.wf(),
        i < doc.nodes@.len(),
        depth <= i + 1,
    ensures
        nav_views(final(points)@) == nav_views(old(points)@) + ncx_collect(doc.view_nodes(), i as int, base_directory@, depth as nat),
    decreases doc.nodes@.len() - i,
{
    let ghost n = doc.view_nodes();
    let ghost start = nav_views(points@);
    let title = ncx_title_exec(doc, i);
    let source = ncx_source_exec(doc, i);
    match (title, source) {
        (Some(t), Some(s)) => {
            let p = nav_point_view_of(t, s.as_str(), base_directory, depth);
            points.push(p);
            assert(nav_views(points@) =~= start.push(nav_view(p)));
        },
        _ => {},
    }
    let ghost mid = nav_views(points@);
    assert(mid == start + match (ncx_title(n, i as int), ncx_source(n, i as int)) {
        (Some(t), Some(s)) => seq![nav_entry(t, s, base_directory@, depth as nat)],
        _ => Seq::<NavView>::empty(),
    });
    let kids = doc.children_of(i);
    let mut k: usize = 0;
    assert(mid =~= mid + ncx_fold(n, i as int, base_directory@, (depth + 1) as nat, 0));
    while k < kids.len()
        invariant
            k <= kids@.len(),
            doc.wf(),
            i < doc.nodes@.len(),
            depth <= i + 1,
            n == doc.view_nodes(),
            usize_seq(kids@) == children(n, i as int),
            forall|q: int| 0 <= q < kids@.len() ==> i < #[trigger] kids@[q] < doc.nodes@.len(),
            nav_views(points@) == mid + ncx_fold(n, i as int, base_directory@, (depth + 1) as nat, k as int),
        decreases kids@.len() - k,
    {
        let c = kids[k];
        assert(usize_seq(kids@)[k as int] == c as int);
        if doc.element_named(c, "navPoint") {
            collect_ncx_point(doc, c, base_directory, depth + 1, points);
        }
        k += 1;
    }
}

/// The entries of an NCX document: the `navPoint`s of its `navMap`.
pub open spec fn spec_ncx_points(text: Seq<char>, base: Seq<char>) -> Seq<NavView> {
    match spec_parse_doc(text) {
        Some(n) => match first_named(n, desc(n, 0), "navMap"@) {
            Some(m) => ncx_fold(n, m, base, 1, children(n, m).len() as int),
            None => Seq::empty(),
        },
        None => Seq::empty(),
    }
}

pub fn parse_ncx_points(text: &str, base_directory: &str) -> (r: Vec<NavPoint>)
    ensures
        nav_views(r@) == spec_ncx_points(text@, base_directory@),
{
    let mut points: Vec<NavPoint> = Vec::new();
    assert(nav_views(points@) =~= Seq::<NavView>::empty());
    let doc = match XmlDoc::parse(text) {
        Some(d) => d,
        None => return points,
    };
    let ghost n = doc.view_nodes();
    let nav_map = match doc.find_descendant(0, "navMap") {
        Some(m) => m,
        None => return points,
    };
    let kids = doc.children_of(nav_map);
    let mut k: usize = 0;
    assert(nav_views(points@) =~= ncx_fold(n, nav_map as int, base_directory@, 1, 0));
    while k < kids.len()
        invariant
            k <= kids@.len(),
            doc.wf(),
            nav_map < doc.nodes@.len(),
            n == doc.view_nodes(),
            usize_seq(kids@) == children(n, nav_map as int),
            forall|q: int| 0 <= q < kids@.len() ==> nav_map < #[trigger] kids@[q] < doc.nodes@.len(),
            nav_views(points@) == ncx_fold(n, nav_map as int, base_directory@, 1, k as int),
        decreases kids@.len() - k,
    {
        let c = kids[k];
        assert(usize_seq(kids@)[k as int] == c as int);
        if doc.element_named(c, "navPoint") {
            collect_ncx_point(&doc, c, base_directory, 1, &mut points);
        }
        k += 1;
    }
    points
}

/// Whether `tok` is one of the whitespace-separated words of `s`.
pub open spec fn has_word(s: Seq<char>, tok: Seq<char>, ci: bool) -> bool {
    exists|i: int, j: int| #![trigger s.subrange(i, j)]
        0 <= i <= j <= s.len() && (i == 0 || is_ws(s[i - 1])) && (j == s.len() || is_ws(s[j]))
        && (forall|k: int| i <= k < j ==> !is_ws(#[trigger] s[k])) && j > i
        && (if ci { eq_ignore_ascii_case(s.subrange(i, j), tok) } else { s.subrange(i, j) == tok })
}

/// The words of `s` (`str::split_whitespace`), checked one by one.
pub fn has_word_exec(s: &str, tok: &str, ci: bool) -> (r: bool)
    ensures
        r == has_word(s@, tok@, ci),
{
    let v = chars_of(s);
    let t = chars_of(tok);
    let mut i: usize = 0;
    while i < v.len()
        invariant
            i <= v@.len(),
            v@ == s@,
            t@ == tok@,
            forall|a: int, b: int| 0 <= a <= b <= v@.len() && a < i && (a == 0 || is_ws(v@[a - 1]))
                && (b == v@.len() || is_ws(v@[b])) && (forall|k: int| a <= k < b ==> !is_ws(#[trigger] v@[k])) && b > a
                ==> !(if ci { eq_ignore_ascii_case(#[trigger] v@.subrange(a, b), tok@) } else { v@.subrange(a, b) == tok@ }),
            i < v@.len() ==> (i == 0 || is_ws(v@[i - 1]) || is_ws(v@[i as int])),
        decreases v@.len() - i,
    {
        if is_whitespace(v[i]) {
            proof {
                assert forall|a: int, b: int| 0 <= a <= b <= v@.len() && a < i + 1 && (a == 0 || is_ws(v@[a - 1]))
                    && (b == v@.len() || is_ws(v@[b])) && (forall|k: int| a <= k < b ==> !is_ws(#[trigger] v@[k])) && b > a
                    implies !(if ci { eq_ignore_ascii_case(#[trigger] v@.subrange(a, b), tok@) } else { v@.subrange(a, b) == tok@ }) by {
                    if a == i {
                        assert(!is_ws(v@[a]));
                    }
                }
            }
            i += 1;
        } else {
            let mut j = i;
            while j < v.len() && !is_whitespace(v[j])
                invariant
                    i <= j <= v@.len(),
                    forall|k: int| i <= k < j ==> !is_ws(#[trigger] v@[k]),
                decreases v@.len() - j,
            {
                j += 1;
            }
            let word = crate::text::sub_chars(&v, i, j);
            let hit = if ci { chars_eq_ignore_ascii_case(&word, &t) } else { crate::text::chars_eq(&word, &t) };
            if hit {
                return true;
            }
            proof {
                assert forall|a: int, b: int| 0 <= a <= b <= v@.len() && a < j && (a == 0 || is_ws(v@[a - 1]))
                    && (b == v@.len() || is_ws(v@[b])) && (forall|k: int| a <= k < b ==> !is_ws(#[trigger] v@[k])) && b > a
                    implies !(if ci { eq_ignore_ascii_case(#[trigger] v@.subrange(a, b), tok@) } else { v@.subrange(a, b) == tok@ }) by {
                    if a >= i {
                        if a > i {
                            assert(!is_ws(v@[a - 1]));
                        }
                        if b < j {
                            assert(!is_ws(v@[b]));
                        } else if b > j {
                            assert(!is_ws(v@[j as int]));
                        }
                        assert(word@ == v@.subrange(a, b));
                    }
                }
            }
            i = j;
        }
    }
    false
}


/// An attribute that marks a `nav` as the table of contents: `type`
/// (`epub:type`) with the word `toc` among its values, in any case.
pub open spec fn toc_attribute(a: (Option<Seq<char>>, Seq<char>, Seq<char>)) -> bool {
    (a.1 == "type"@ || a.1 == "epub:type"@) && has_word(a.2, "toc"@, true)
}

pub open spec fn spec_is_toc_nav(n: Seq<NodeView>, i: int) -> bool {
    valid(n, i) && exists|k: int| 0 <= k < n[i].attributes.len() && toc_attribute(#[trigger] n[i].attributes[k])
}

/// Whether node `i` is marked as the table of contents.
pub fn is_toc_nav(doc: &XmlDoc, i: usize) -> (r: bool)
    requires
        i < doc.nodes@.len(),
    ensures
        r == spec_is_toc_nav(doc.view_nodes(), i as int),
{
    assert(doc.view_nodes()[i as int] == node_view(doc.nodes@[i as int]));
    let attrs = &doc.nodes[i].attributes;
    let ghost av = doc.view_nodes()[i as int].attributes;
    assert(av == attrs@.map_values(|a: XmlAttribute| attr_view(a)));
    let mut k: usize = 0;
    while k < attrs.len()
        invariant
            k <= attrs@.len(),
            i < doc.nodes@.len(),
            av == attrs@.map_values(|a: XmlAttribute| attr_view(a)),
            av == doc.view_nodes()[i as int].attributes,
            forall|q: int| 0 <= q < k ==> !toc_attribute(#[trigger] av[q]),
        decreases attrs@.len() - k,
    {
        let a = &attrs[k];
        assert(av[k as int] == attr_view(*a));
        proof {
            reveal_strlit("type");
            reveal_strlit("epub:type");
        }
        let typed = str_eq(a.name.as_str(), "type") || str_eq(a.name.as_str(), "epub:type");
        if typed && has_word_exec(a.value.as_str(), "toc", true) {
            assert(toc_attribute(av[k as int]));
            return true;
        }
        k += 1;
    }
    false
}

/// The first `nav` of `list` that is the table of contents.
pub open spec fn first_toc_nav(n: Seq<NodeView>, list: Seq<int>) -> Option<int>
    decreases list.len(),
{
    if list.len() == 0 {
        None
    } else if named(n, list[0], "nav"@) && spec_is_toc_nav(n, list[0]) {
        Some(list[0])
    } else {
        first_toc_nav(n, list.drop_first())
    }
}

/// Where a navigation document's lists are looked for: the table-of-contents
/// `nav`, else the first `nav`, else the document element.
pub open spec fn nav_root(n: Seq<NodeView>) -> Option<int> {
    match first_toc_nav(n, desc(n, 0)) {
        Some(i) => Some(i),
        None => match first_named(n, desc(n, 0), "nav"@) {
            Some(i) => Some(i),
            None => first_element(n, children(n, 0)),
        },
    }
}

/// The entries of the list `l` (an `ol` or `ul`) at `depth`.
pub open spec fn nav_list(n: Seq<NodeView>, l: int, base: Seq<char>, depth: nat) -> Seq<NavView>
    decreases n.len() - l, 1int, 0int,
{
    if !valid(n, l) {
        Seq::empty()
    } else {
        nav_items(n, l, base, depth, children(n, l).len() as int)
    }
}

/// The entries of the `li` children among the first `k` children of `l`.
pub open spec fn nav_items(n: Seq<NodeView>, l: int, base: Seq<char>, depth: nat, k: int) -> Seq<NavView>
    decreases n.len() - l, 0int, k,
{
    if !valid(n, l) || k <= 0 || k > children(n, l).len() {
        Seq::empty()
    } else {
        let before = nav_items(n, l, base, depth, k - 1);
        let c = children(n, l)[k - 1];
        proof { lemma_children(n, l); }
        if named(n, c, "li"@) { before + nav_item(n, c, base, depth) } else { before }
    }
}

/// The entry of a list item's link (its `href` and text), then the
/// entries of its nested lists one level deeper.
pub open spec fn nav_item(n: Seq<NodeView>, li: int, base: Seq<char>, depth: nat) -> Seq<NavView>
    decreases n.len() - li, 1int, 0int,
{
    if !valid(n, li) {
        Seq::empty()
    } else {
        let own = match first_child_named(n, li, "a"@) {
            Some(a) => match (attr(n, a, "href"@), spec_collapsed_text(n, a)) {
                (Some(h), Some(t)) => seq![nav_entry(t, h, base, depth)],
                _ => Seq::empty(),
            },
            None => Seq::empty(),
        };
        own + nav_lists(n, li, base, depth + 1, children(n, li).len() as int)
    }
}

/// The entries of the lists among the first `k` children of `i`.
pub open spec fn nav_lists(n: Seq<NodeView>, i: int, base: Seq<char>, depth: nat, k: int) -> Seq<NavView>
    decreases n.len() - i, 0int, k,
{
    if !valid(n, i) || k <= 0 || k > children(n, i).len() {
        Seq::empty()
    } else {
        let before = nav_lists(n, i, base, depth, k - 1);
        let c = children(n, i)[k - 1];
        proof { lemma_children(n, i); }
        if is_list(n, c) { before + nav_list(n, c, base, depth) } else { before }
    }
}

/// The entries of a list, its items in order, each followed by the
/// lists nested in it.
fn collect_xhtml_nav_list(doc: &XmlDoc, list: usize, base_directory: &str, depth: usize, points: &mut Vec<NavPoint>)
    requires
        doc.wf(),
        list < doc.nodes@.len(),
        depth <= list + 1,
    ensures
        nav_views(final(points)@) == nav_views(old(points)@) + nav_list(doc.view_nodes(), list as int, base_directory@, depth as nat),
    decreases doc.nodes@.len() - list,
{
    let ghost n = doc.view_nodes();
    let ghost start = nav_views(points@);
    let kids = doc.children_of(list);
    let mut k: usize = 0;
    assert(start =~= start + nav_items(n, list as int, base_directory@, depth as nat, 0));
    while k < kids.len()
        invariant
            k <= kids@.len(),
            doc.wf(),
            list < doc.nodes@.len(),
            depth <= list + 1,
            n == doc.view_nodes(),
            usize_seq(kids@) == children(n, list as int),
            forall|q: int| 0 <= q < kids@.len() ==> list < #[trigger] kids@[q] < doc.nodes@.len(),
            nav_views(points@) == start + nav_items(n, list as int, base_directory@, depth as nat, k as int),
        decreases kids@.len() - k,
    {
        let item = kids[k];
        assert(usize_seq(kids@)[k as int] == item as int);
        if doc.element_named(item, "li") {
            let ghost before = nav_views(points@);
            match first_child_named_exec(doc, item, "a") {
                Some(link) => {
                    match doc.attribute(link, "href") {
                        Some(href) => {
                            match doc.collapsed_text(link) {
                                Some(title) => {
                                    let p = nav_point_view_of(title, href.as_str(), base_directory, depth);
                                    points.push(p);
                                    assert(nav_views(points@) =~= before.push(nav_view(p)));
                                },
                                None => {},
                            }
                        },
                        None => {},
                    }
                },
                None => {},
            }
            let ghost mid = nav_views(points@);
            assert(mid =~= before + match first_child_named(n, item as int, "a"@) {
                Some(a) => match (attr(n, a, "href"@), spec_collapsed_text(n, a)) {
                    (Some(h), Some(t)) => seq![nav_entry(t, h, base_directory@, depth as nat)],
                    _ => Seq::<NavView>::empty(),
                },
                None => Seq::<NavView>::empty(),
            });
            let inner = doc.children_of(item);
            let mut q: usize = 0;
            assert(mid =~= mid + nav_lists(n, item as int, base_directory@, (depth + 1) as nat, 0));
            while q < inner.len()
                invariant
                    q <= inner@.len(),
                    doc.wf(),
                    item < doc.nodes@.len(),
                    depth <= list + 1,
                    list < item,
                    n == doc.view_nodes(),
                    usize_seq(inner@) == children(n, item as int),
                    forall|r: int| 0 <= r < inner@.len() ==> item < #[trigger] inner@[r] < doc.nodes@.len(),
                    nav_views(points@) == mid + nav_lists(n, item as int, base_directory@, (depth + 1) as nat, q as int),
                decreases inner@.len() - q,
            {
                let child = inner[q];
                assert(usize_seq(inner@)[q as int] == child as int);
                if doc.element_named(child, "ol") || doc.element_named(child, "ul") {
                    collect_xhtml_nav_list(doc, child, base_directory, depth + 1, points);
                }
                q += 1;
            }
            assert(nav_views(points@) =~= before + nav_item(n, item as int, base_directory@, depth as nat));
        }
        k += 1;
    }
}

fn first_toc_nav_exec(doc: &XmlDoc) -> (r: Option<usize>)
    requires
        doc.wf(),
    ensures
        match r {
            Some(j) => first_toc_nav(doc.view_nodes(), desc(doc.view_nodes(), 0)) == Some(j as int) && j < doc.nodes@.len(),
            None => first_toc_nav(doc.view_nodes(), desc(doc.view_nodes(), 0)) is None,
        },
{
    let d = doc.descendants(0);
    let ghost dv = usize_seq(d@);
    let mut k: usize = 0;
    assert(dv.skip(0) =~= dv);
    while k < d.len()
        invariant
            k <= d@.len(),
            doc.wf(),
            dv == usize_seq(d@),
            dv == desc(doc.view_nodes(), 0),
            forall|q: int| 0 <= q < d@.len() ==> #[trigger] d@[q] < doc.nodes@.len(),
            first_toc_nav(doc.view_nodes(), dv.skip(k as int)) == first_toc_nav(doc.view_nodes(), dv),
        decreases d@.len() - k,
    {
        let j = d[k];
        assert(dv.skip(k as int)[0] == j as int);
        if doc.element_named(j, "nav") && is_toc_nav(doc, j) {
            return Some(j);
        }
        assert(dv.skip(k as int).drop_first() =~= dv.skip(k + 1));
        k += 1;
    }
    assert(dv.skip(k as int) =~= Seq::<int>::empty());
    None
}

/// The entries of an XHTML navigation document.
pub open spec fn spec_xhtml_nav_points(text: Seq<char>, base: Seq<char>) -> Seq<NavView> {
    match spec_parse_doc(regex_replaced_first(doctype_pattern(), text, ""@)) {
        Some(n) => match nav_root(n) {
            Some(r) => nav_lists(n, r, base, 1, children(n, r).len() as int),
            None => Seq::empty(),
        },
        None => Seq::empty(),
    }
}

pub fn parse_xhtml_nav_points(text: &str, base_directory: &str) -> (r: Vec<NavPoint>)
    ensures
        nav_views(r@) == spec_xhtml_nav_points(text@, base_directory@),
{
    let mut points: Vec<NavPoint> = Vec::new();
    assert(nav_views(points@) =~= Seq::<NavView>::empty());
    let content = strip_doctype(text);
    let doc = match XmlDoc::parse(content.as_str()) {
        Some(d) => d,
        None => return points,
    };
    let ghost n = doc.view_nodes();
    let nav = match first_toc_nav_exec(&doc) {
        Some(i) => i,
        None => match doc.find_descendant(0, "nav") {
            Some(i) => i,
            None => match doc.root_element() {
                Some(i) => i,
                None => return points,
            },
        },
    };
    assert(nav_root(n) == Some(nav as int));
    let kids = doc.children_of(nav);
    let mut k: usize = 0;
    assert(nav_views(points@) =~= nav_lists(n, nav as int, base_directory@, 1, 0));
    while k < kids.len()
        invariant
            k <= kids@.len(),
            doc.wf(),
            nav < doc.nodes@.len(),
            n == doc.view_nodes(),
            usize_seq(kids@) == children(n, nav as int),
            forall|q: int| 0 <= q < kids@.len() ==> nav < #[trigger] kids@[q] < doc.nodes@.len(),
            nav_views(points@) == nav_lists(n, nav as int, base_directory@, 1, k as int),
        decreases kids@.len() - k,
    {
        let c = kids[k];
        assert(usize_seq(kids@)[k as int] == c as int);
        if doc.element_named(c, "ol") || doc.element_named(c, "ul") {
            collect_xhtml_nav_list(&doc, c, base_directory, 1, &mut points);
        }
        k += 1;
    }
    points
}

/// The entries of every link of a document that has an `href` and text,
/// in document order, at depth 1.
pub open spec fn inline_links(n: Seq<NodeView>, list: Seq<int>, base: Seq<char>) -> Seq<NavView>
    decreases list.len(),
{
    if list.len() == 0 {
        Seq::empty()
    } else {
        let rest = inline_links(n, list.drop_last(), base);
        let j = list.last();
        if named(n, j, "a"@) {
            match (attr(n, j, "href"@), spec_collapsed_text(n, j)) {
                (Some(h), Some(t)) => rest.push(nav_entry(t, h, base, 1)),
                _ => rest,
            }
        } else {
            rest
        }
    }
}

pub fn parse_inline_navigation_hrefs(doc: &XmlDoc, base_directory: &str) -> (r: Vec<NavPoint>)
    requires
        doc.wf(),
    ensures
        nav_views(r@) == inline_links(doc.view_nodes(), desc(doc.view_nodes(), 0), base_directory@),
{
    let ghost n = doc.view_nodes();
    let d = doc.descendants(0);
    let ghost dv = usize_seq(d@);
    let mut points: Vec<NavPoint> = Vec::new();
    let mut k: usize = 0;
    assert(nav_views(points@) =~= inline_links(n, dv.take(0), base_directory@));
    while k < d.len()
        invariant
            k <= d@.len(),
            doc.wf(),
            n == doc.view_nodes(),
            dv == usize_seq(d@),
            forall|q: int| 0 <= q < d@.len() ==> #[trigger] d@[q] < doc.nodes@.len(),
            nav_views(points@) == inline_links(n, dv.take(k as int), base_directory@),
        decreases d@.len() - k,
    {
        let ghost t = dv.take(k + 1);
        assert(t.drop_last() =~= dv.take(k as int));
        assert(t.last() == d@[k as int] as int);
        let j = d[k];
        let ghost before = nav_views(points@);
        if doc.element_named(j, "a") {
            match doc.attribute(j, "href") {
                Some(href) => match doc.collapsed_text(j) {
                    Some(title) => {
                        let p = nav_point_view_of(title, href.as_str(), base_directory, 1);
                        points.push(p);
                        assert(nav_views(points@) =~= before.push(nav_view(p)));
                    },
                    None => {},
                },
                None => {},
            }
        }
        k += 1;
    }
    assert(dv.take(d@.len() as int) =~= dv);
    points
}


/// A manifest item as plain values: href, media type, path, properties.
pub type ItemView = (Seq<char>, Seq<char>, Seq<char>, Seq<char>);

/// An NCX document, by media type or by the extension of its href.
pub open spec fn is_ncx_item(v: ItemView) -> bool {
    contains_seq(lowercase(v.1), "ncx"@) || has_suffix(lowercase(v.0), ".ncx"@)
}

fn is_ncx(item: &ManifestItem) -> (r: bool)
    ensures
        r == is_ncx_item(item_view(*item)),
{
    let media = chars_of(to_lowercase(item.media_type.as_str()).as_str());
    let href = chars_of(to_lowercase(item.href.as_str()).as_str());
    contains_str(&media, "ncx") || ends_with_str(&href, ".ncx")
}

/// The entries that one navigation document of the book gives: nothing
/// when the book lacks it or it is not UTF-8.
pub open spec fn item_nav_points(entries: Map<Seq<char>, Seq<u8>>, v: ItemView) -> Seq<NavView> {
    if entries.contains_key(v.2) && valid_utf8(entries[v.2]) {
        let text = decode_utf8(entries[v.2]);
        let base = spec_parent_dir(v.2);
        if is_ncx_item(v) { spec_ncx_points(text, base) } else { spec_xhtml_nav_points(text, base) }
    } else {
        Seq::empty()
    }
}

/// Two entries that lead to the same place: document and fragment.
pub open spec fn same_target(a: NavView, b: NavView) -> bool {
    a.1 == b.1 && a.2 == b.2
}

pub open spec fn has_target(acc: Seq<NavView>, p: NavView) -> bool {
    exists|k: int| 0 <= k < acc.len() && same_target(#[trigger] acc[k], p)
}

/// `acc` followed by the entries of `new` whose place no earlier entry
/// has.
pub open spec fn add_new_targets(acc: Seq<NavView>, new: Seq<NavView>) -> Seq<NavView>
    decreases new.len(),
{
    if new.len() == 0 {
        acc
    } else {
        let a = add_new_targets(acc, new.drop_last());
        if has_target(a, new.last()) { a } else { a.push(new.last()) }
    }
}

/// The entries of the navigation documents `items`, in turn, each place
/// once.
pub open spec fn nav_from_items(entries: Map<Seq<char>, Seq<u8>>, items: Seq<ItemView>) -> Seq<NavView>
    decreases items.len(),
{
    if items.len() == 0 {
        Seq::empty()
    } else {
        add_new_targets(nav_from_items(entries, items.drop_last()), item_nav_points(entries, items.last()))
    }
}

fn clone_nav_point(p: &NavPoint) -> (r: NavPoint)
    ensures
        nav_view(r) == nav_view(*p),
{
    NavPoint { title: p.title.clone(), epub_path: p.epub_path.clone(), fragment: clone_opt_string(&p.fragment), depth: p.depth }
}

fn add_new_targets_exec(points: &mut Vec<NavPoint>, parsed: &Vec<NavPoint>)
    ensures
        nav_views(final(points)@) == add_new_targets(nav_views(old(points)@), nav_views(parsed@)),
{
    let ghost start = nav_views(points@);
    let ghost pv = nav_views(parsed@);
    let mut i: usize = 0;
    assert(pv.take(0) =~= Seq::<NavView>::empty());
    while i < parsed.len()
        invariant
            i <= parsed@.len(),
            pv == nav_views(parsed@),
            nav_views(points@) == add_new_targets(start, pv.take(i as int)),
        decreases parsed@.len() - i,
    {
        let ghost t = pv.take(i + 1);
        assert(t.drop_last() =~= pv.take(i as int));
        assert(t.last() == nav_view(parsed@[i as int]));
        let p = &parsed[i];
        let ghost acc = nav_views(points@);
        let mut found = false;
        let mut k: usize = 0;
        while k < points.len()
            invariant
                k <= points@.len(),
                acc == nav_views(points@),
                found == exists|q: int| 0 <= q < k && same_target(#[trigger] acc[q], nav_view(*p)),
            decreases points@.len() - k,
        {
            assert(acc[k as int] == nav_view(points@[k as int]));
            if str_eq(points[k].epub_path.as_str(), p.epub_path.as_str()) && opt_string_eq(&points[k].fragment, &p.fragment) {
                found = true;
            }
            k += 1;
        }
        if !found {
            let c = clone_nav_point(p);
            points.push(c);
            assert(nav_views(points@) =~= acc.push(nav_view(c)));
        }
        i += 1;
    }
    assert(pv.take(parsed@.len() as int) =~= pv);
}

pub open spec fn item_views(items: Seq<ManifestItem>) -> Seq<ItemView> {
    items.map_values(|i: ManifestItem| item_view(i))
}

/// The entries of the navigation documents `navigation_items`, in turn:
/// NCX documents and XHTML `nav` documents, each place once.
pub fn navigation_points_from_items(entries: &TextMap<Vec<u8>>, navigation_items: &Vec<ManifestItem>) -> (r: Vec<NavPoint>)
    ensures
        nav_views(r@) == nav_from_items(entries_view(entries@), item_views(navigation_items@)),
{
    let ghost ev = entries_view(entries@);
    let ghost iv = item_views(navigation_items@);
    let mut points: Vec<NavPoint> = Vec::new();
    let mut i: usize = 0;
    assert(nav_views(points@) =~= nav_from_items(ev, iv.take(0)));
    while i < navigation_items.len()
        invariant
            i <= navigation_items@.len(),
            ev == entries_view(entries@),
            iv == item_views(navigation_items@),
            nav_views(points@) == nav_from_items(ev, iv.take(i as int)),
        decreases navigation_items@.len() - i,
    {
        let ghost t = iv.take(i + 1);
        assert(t.drop_last() =~= iv.take(i as int));
        let item = &navigation_items[i];
        assert(t.last() == item_view(*item));
        let parsed = match entries.get(item.absolute_path.as_str()) {
            Some(bytes) => match utf8_text(bytes.as_slice()) {
                Some(text) => {
                    let base = parent_dir(item.absolute_path.as_str());
                    if is_ncx(item) {
                        parse_ncx_points(text.as_str(), base.as_str())
                    } else {
                        parse_xhtml_nav_points(text.as_str(), base.as_str())
                    }
                },
                None => Vec::new(),
            },
            None => Vec::new(),
        };
        assert(nav_views(parsed@) =~= item_nav_points(ev, item_view(*item)));
        add_new_targets_exec(&mut points, &parsed);
        i += 1;
    }
    assert(iv.take(navigation_items@.len() as int) =~= iv);
    points
}

/// The id of the NCX that the spine names in its `toc` attribute.
pub open spec fn spec_toc_id(n: Seq<NodeView>) -> Option<Seq<char>> {
    match first_named(n, desc(n, 0), "spine"@) {
        Some(s) => attr(n, s, "toc"@),
        None => None,
    }
}

/// The manifest item that the spine names as its NCX, if any.
pub open spec fn explicit_toc_items(n: Seq<NodeView>, by_id: Map<Seq<char>, ManifestItem>) -> Seq<ItemView> {
    match spec_toc_id(n) {
        Some(id) => if by_id.contains_key(id) { seq![item_view(by_id[id])] } else { Seq::empty() },
        None => Seq::empty(),
    }
}

/// An item whose properties hold the word `nav`.
pub open spec fn is_nav_item(v: ItemView) -> bool {
    has_word(v.3, "nav"@, false)
}

pub open spec fn nav_doc_items(items: Seq<ItemView>) -> Seq<ItemView>
    decreases items.len(),
{
    if items.len() == 0 {
        Seq::empty()
    } else {
        let r = nav_doc_items(items.drop_last());
        if is_nav_item(items.last()) { r.push(items.last()) } else { r }
    }
}

/// The NCX items that are neither `nav` documents nor the spine's own
/// NCX (by path).
pub open spec fn fallback_ncx_items(items: Seq<ItemView>, explicit: Seq<ItemView>) -> Seq<ItemView>
    decreases items.len(),
{
    if items.len() == 0 {
        Seq::empty()
    } else {
        let r = fallback_ncx_items(items.drop_last(), explicit);
        let v = items.last();
        if !is_nav_item(v) && is_ncx_item(v) && !(exists|k: int| 0 <= k < explicit.len() && (#[trigger] explicit[k]).2 == v.2) {
            r.push(v)
        } else {
            r
        }
    }
}

/// The book's navigation: from its `nav` documents, else from the
/// spine's NCX, else from other NCX documents, else from the links of the
/// package document itself.  `live` holds the manifest's items in the
/// order they were declared.
pub open spec fn spec_navigation_points(
    entries: Map<Seq<char>, Seq<u8>>,
    live: Seq<ItemView>,
    by_id: Map<Seq<char>, ManifestItem>,
    n: Seq<NodeView>,
    base: Seq<char>,
) -> Seq<NavView> {
    let explicit = explicit_toc_items(n, by_id);
    let a = nav_from_items(entries, nav_doc_items(live));
    let b = nav_from_items(entries, explicit);
    let c = nav_from_items(entries, fallback_ncx_items(live, explicit));
    if a.len() > 0 {
        a
    } else if b.len() > 0 {
        b
    } else if c.len() > 0 {
        c
    } else {
        inline_links(n, desc(n, 0), base)
    }
}

pub fn parse_navigation_points(
    entries: &TextMap<Vec<u8>>,
    manifest: &TextMap<ManifestItem>,
    opf_doc: &XmlDoc,
    opf_base_directory: &str,
) -> (r: Vec<NavPoint>)
    requires
        opf_doc.wf(),
    ensures
        nav_views(r@) == spec_navigation_points(
            entries_view(entries@),
            live_items_from(manifest.pairs_view(), 0),
            manifest@,
            opf_doc.view_nodes(),
            opf_base_directory@,
        ),
{
    let ghost n = opf_doc.view_nodes();
    let ghost ev = entries_view(entries@);
    let mut explicit_toc_items: Vec<ManifestItem> = Vec::new();
    let toc_id = match opf_doc.find_descendant(0, "spine") {
        Some(spine) => opf_doc.attribute(spine, "toc"),
        None => None,
    };
    match toc_id {
        Some(id) => match manifest.get(id.as_str()) {
            Some(item) => explicit_toc_items.push(clone_item(item)),
            None => {},
        },
        None => {},
    }
    let ghost explicit = item_views(explicit_toc_items@);
    assert(explicit =~= crate::navigation::explicit_toc_items(n, manifest@));
    let values = live_items(manifest);
    let ghost live = item_views(values@);
    assert(live == live_items_from(manifest.pairs_view(), 0));
    let mut nav_items: Vec<ManifestItem> = Vec::new();
    let mut fallback: Vec<ManifestItem> = Vec::new();
    let mut i: usize = 0;
    assert(item_views(nav_items@) =~= nav_doc_items(live.take(0)));
    assert(item_views(fallback@) =~= fallback_ncx_items(live.take(0), explicit));
    while i < values.len()
        invariant
            i <= values@.len(),
            live == item_views(values@),
            explicit == item_views(explicit_toc_items@),
            item_views(nav_items@) == nav_doc_items(live.take(i as int)),
            item_views(fallback@) == fallback_ncx_items(live.take(i as int), explicit),
        decreases values@.len() - i,
    {
        let ghost t = live.take(i + 1);
        assert(t.drop_last() =~= live.take(i as int));
        let item = &values[i];
        assert(t.last() == item_view(*item));
        proof { reveal_strlit("nav"); }
        let is_nav = has_word_exec(item.properties.as_str(), "nav", false);
        if is_nav {
            let ghost before = item_views(nav_items@);
            let c = clone_item(item);
            nav_items.push(c);
            assert(item_views(nav_items@) =~= before.push(item_view(c)));
        } else if is_ncx(item) {
            let mut listed = false;
            let mut k: usize = 0;
            while k < explicit_toc_items.len()
                invariant
                    k <= explicit_toc_items@.len(),
                    explicit == item_views(explicit_toc_items@),
                    listed == exists|q: int| 0 <= q < k && (#[trigger] explicit[q]).2 == item_view(*item).2,
                decreases explicit_toc_items@.len() - k,
            {
                assert(explicit[k as int] == item_view(explicit_toc_items@[k as int]));
                if str_eq(explicit_toc_items[k].absolute_path.as_str(), item.absolute_path.as_str()) {
                    listed = true;
                }
                k += 1;
            }
            if !listed {
                let ghost before = item_views(fallback@);
                let c = clone_item(item);
                fallback.push(c);
                assert(item_views(fallback@) =~= before.push(item_view(c)));
            }
        }
        i += 1;
    }
    assert(live.take(values@.len() as int) =~= live);
    let from_nav = navigation_points_from_items(entries, &nav_items);
    if from_nav.len() > 0 {
        return from_nav;
    }
    let from_toc = navigation_points_from_items(entries, &explicit_toc_items);
    if from_toc.len() > 0 {
        return from_toc;
    }
    let from_ncx = navigation_points_from_items(entries, &fallback);
    if from_ncx.len() > 0 {
        return from_ncx;
    }
    parse_inline_navigation_hrefs(opf_doc, opf_base_directory)
}


/// No two entries lead to the same place.
pub open spec fn targets_distinct(s: Seq<NavView>) -> bool {
    forall|i: int, j: int| 0 <= i < j < s.len() ==> !same_target(s[i], s[j])
}

proof fn lemma_add_new_targets_distinct(acc: Seq<NavView>, new: Seq<NavView>)
    requires
        targets_distinct(acc),
    ensures
        targets_distinct(add_new_targets(acc, new)),
    decreases new.len(),
{
    if new.len() > 0 {
        lemma_add_new_targets_distinct(acc, new.drop_last());
        let a = add_new_targets(acc, new.drop_last());
        if !has_target(a, new.last()) {
            let b = a.push(new.last());
            assert forall|i: int, j: int| 0 <= i < j < b.len() implies !same_target(b[i], b[j]) by {
                if j == a.len() {
                    assert(b[i] == a[i]);
                    if same_target(a[i], new.last()) {
                        assert(has_target(a, new.last()));
                    }
                } else {
                    assert(b[i] == a[i] && b[j] == a[j]);
                }
            }
        }
    }
}

/// The navigation read from the book's navigation documents names each
/// place (document and fragment) once.
pub proof fn law_navigation_targets_distinct(entries: Map<Seq<char>, Seq<u8>>, items: Seq<ItemView>)
    ensures
        targets_distinct(nav_from_items(entries, items)),
    decreases items.len(),
{
    if items.len() > 0 {
        law_navigation_targets_distinct(entries, items.drop_last());
        lemma_add_new_targets_distinct(nav_from_items(entries, items.drop_last()), item_nav_points(entries, items.last()));
    }
}

} // verus!

//! The OPF package of a book: where the container points, the manifest,
//! the spine, the metadata, the navigation and the cover image.
use vstd::prelude::*;
use vstd::utf8::{valid_utf8, decode_utf8};
use crate::text::{
    chars_of, string_of, append_chars, trim, trim_chars, to_lowercase, lowercase, str_eq,
    eq_ignore_ascii_case, chars_eq_ignore_ascii_case,
};
use crate::xml::{XmlDoc, NodeView, spec_parse_doc, children, desc, usize_seq, first_named, first_element, spec_collapsed_text, opt_chars};
use crate::render::{named, attr};
use crate::content::{utf8_text, parse_xhtml, spec_xhtml_doc};
use crate::paths::{
    spec_remove_fragment, remove_fragment, spec_join_path, join_path, spec_normalize_path, normalize_path,
    parent_dir, spec_parent_dir, spec_file_stem, file_stem,
};
use crate::assets::{
    is_asset, is_xhtml_item, spec_is_asset, spec_is_xhtml_item, spec_is_asset_view, item_view, live_items,
    live_items_from, entries_view, clone_item,
};
use crate::navigation::{
    has_word, has_word_exec, ItemView, item_views, nav_views, parse_navigation_points, spec_navigation_points,
};
use crate::text::strings_view;
use crate::textmap::{TextMap, map_of, lemma_map_of_dom};
use crate::model::{EpubPackage, ManifestItem, Metadata, NavPoint, opt_view};
use crate::ConversionError;

verus! {

broadcast use vstd::string::group_string_axioms;

/// The path of the image that an XHTML page shows first: the `src` of its
/// first `img`, resolved against the page's directory.  Nothing when the
/// book lacks the page, it does not parse, or the `src` is blank.
pub open spec fn spec_first_image(entries: Map<Seq<char>, Seq<u8>>, path: Seq<char>) -> Option<Seq<char>> {
    if entries.contains_key(path) {
        match spec_xhtml_doc(entries[path]) {
            Some(n) => match first_named(n, desc(n, 0), "img"@) {
                Some(img) => match attr(n, img, "src"@) {
                    Some(src) => if trim(src).len() > 0 {
                        Some(spec_normalize_path(spec_join_path(spec_parent_dir(path), spec_remove_fragment(src))))
                    } else {
                        None
                    },
                    None => None,
                },
                None => None,
            },
            None => None,
        }
    } else {
        None
    }
}

pub fn first_image_in_xhtml(entries: &TextMap<Vec<u8>>, xhtml_path: &str) -> (r: Option<String>)
    ensures
        opt_view(r) == spec_first_image(entries_view(entries@), xhtml_path@),
{
    let data = match entries.get(xhtml_path) {
        Some(d) => d,
        None => return None,
    };
    assert(entries_view(entries@)[xhtml_path@] == data@);
    let doc = match parse_xhtml(data.as_slice()) {
        Some(d) => d,
        None => return None,
    };
    let img = match doc.find_descendant(0, "img") {
        Some(i) => i,
        None => return None,
    };
    let src = match doc.attribute(img, "src") {
        Some(s) => s,
        None => return None,
    };
    if trim_chars(&chars_of(src.as_str())).len() == 0 {
        return None;
    }
    let base = parent_dir(xhtml_path);
    let no_fragment = remove_fragment(src.as_str());
    Some(normalize_path(join_path(base.as_str(), no_fragment.as_str()).as_str()))
}

/// The first manifest item (in declaration order) with the property
/// `cover-image` that is an image.
pub open spec fn spec_cover_item(live: Seq<ItemView>) -> Option<ItemView>
    decreases live.len(),
{
    if live.len() == 0 {
        None
    } else if has_word(live[0].3, "cover-image"@, false) && spec_is_asset_view(live[0]) {
        Some(live[0])
    } else {
        spec_cover_item(live.drop_first())
    }
}

/// A `<meta name="cover">`, the name in any case.
pub open spec fn is_cover_meta(n: Seq<NodeView>, j: int) -> bool {
    named(n, j, "meta"@) && match attr(n, j, "name"@) {
        Some(v) => eq_ignore_ascii_case(v, "cover"@),
        None => false,
    }
}

pub open spec fn first_cover_meta(n: Seq<NodeView>, list: Seq<int>) -> Option<int>
    decreases list.len(),
{
    if list.len() == 0 {
        None
    } else if is_cover_meta(n, list[0]) {
        Some(list[0])
    } else {
        first_cover_meta(n, list.drop_first())
    }
}

/// A guide `<reference type="cover">`, the type in any case.
pub open spec fn is_cover_reference(n: Seq<NodeView>, j: int) -> bool {
    named(n, j, "reference"@) && match attr(n, j, "type"@) {
        Some(v) => eq_ignore_ascii_case(v, "cover"@),
        None => false,
    }
}

/// The first image of the first cover page among the references of
/// `list` that shows one.
pub open spec fn cover_from_references(entries: Map<Seq<char>, Seq<u8>>, n: Seq<NodeView>, list: Seq<int>, base: Seq<char>) -> Option<Seq<char>>
    decreases list.len(),
{
    if list.len() == 0 {
        None
    } else {
        let j = list[0];
        let here = if is_cover_reference(n, j) {
            match attr(n, j, "href"@) {
                Some(h) => spec_first_image(entries, spec_normalize_path(spec_join_path(base, spec_remove_fragment(h)))),
                None => None,
            }
        } else {
            None
        };
        if here is Some { here } else { cover_from_references(entries, n, list.drop_first(), base) }
    }
}

/// What the `<meta name="cover">` decides: `Some(path)` when it names an
/// image or an XHTML page of the manifest (the page's first image, which
/// may be none), `None` when it decides nothing.
pub open spec fn cover_from_meta(entries: Map<Seq<char>, Seq<u8>>, by_id: Map<Seq<char>, ManifestItem>, n: Seq<NodeView>) -> Option<Option<Seq<char>>> {
    match first_cover_meta(n, desc(n, 0)) {
        Some(m) => match attr(n, m, "content"@) {
            Some(id) => if by_id.contains_key(id) {
                let item = by_id[id];
                if spec_is_asset(item) {
                    Some(Some(item.absolute_path@))
                } else if spec_is_xhtml_item(item) {
                    Some(spec_first_image(entries, item.absolute_path@))
                } else {
                    None
                }
            } else {
                None
            },
            None => None,
        },
        None => None,
    }
}

/// The book's cover image: the manifest's `cover-image`, else what the
/// cover `meta` names, else the first image of a guide's cover page.
pub open spec fn spec_cover_image_path(
    entries: Map<Seq<char>, Seq<u8>>,
    live: Seq<ItemView>,
    by_id: Map<Seq<char>, ManifestItem>,
    n: Seq<NodeView>,
    base: Seq<char>,
) -> Option<Seq<char>> {
    match spec_cover_item(live) {
        Some(v) => Some(v.2),
        None => match cover_from_meta(entries, by_id, n) {
            Some(r) => r,
            None => cover_from_references(entries, n, desc(n, 0), base),
        },
    }
}

fn first_cover_meta_exec(doc: &XmlDoc) -> (r: Option<usize>)
    requires
        doc.wf(),
    ensures
        match r {
            Some(j) => first_cover_meta(doc.view_nodes(), desc(doc.view_nodes(), 0)) == Some(j as int) && j < doc.nodes@.len(),
            None => first_cover_meta(doc.view_nodes(), desc(doc.view_nodes(), 0)) is None,
        },
{
    let d = doc.descendants(0);
    let ghost n = doc.view_nodes();
    let ghost dv = usize_seq(d@);
    let mut k: usize = 0;
    assert(dv.skip(0) =~= dv);
    while k < d.len()
        invariant
            k <= d@.len(),
            doc.wf(),
            n == doc.view_nodes(),
            dv == usize_seq(d@),
            dv == desc(n, 0),
            forall|q: int| 0 <= q < d@.len() ==> #[trigger] d@[q] < doc.nodes@.len(),
            first_cover_meta(n, dv.skip(k as int)) == first_cover_meta(n, dv),
        decreases d@.len() - k,
    {
        let j = d[k];
        assert(dv.skip(k as int)[0] == j as int);
        if doc.element_named(j, "meta") {
            match doc.attribute(j, "name") {
                Some(v) => {
                    if chars_eq_ignore_ascii_case(&chars_of(v.as_str()), &chars_of("cover")) {
                        return Some(j);
                    }
                },
                None => {},
            }
        }
        assert(dv.skip(k as int).drop_first() =~= dv.skip(k + 1));
        k += 1;
    }
    assert(dv.skip(k as int) =~= Seq::<int>::empty());
    None
}

pub fn find_cover_image_path(
    entries: &TextMap<Vec<u8>>,
    manifest: &TextMap<ManifestItem>,
    opf_doc: &XmlDoc,
    opf_base_directory: &str,
) -> (r: Option<String>)
    requires
        opf_doc.wf(),
    ensures
        opt_view(r) == spec_cover_image_path(
            entries_view(entries@),
            live_items_from(manifest.pairs_view(), 0),
            manifest@,
            opf_doc.view_nodes(),
            opf_base_directory@,
        ),
{
    let ghost ev = entries_view(entries@);
    let ghost n = opf_doc.view_nodes();
    let values = live_items(manifest);
    let ghost live = item_views(values@);
    assert(live == live_items_from(manifest.pairs_view(), 0));
    let mut i: usize = 0;
    assert(live.skip(0) =~= live);
    while i < values.len()
        invariant
            i <= values@.len(),
            live == item_views(values@),
            live == live_items_from(manifest.pairs_view(), 0),
            spec_cover_item(live.skip(i as int)) == spec_cover_item(live),
        decreases values@.len() - i,
    {
        let item = &values[i];
        assert(live.skip(i as int)[0] == item_view(*item));
        if has_word_exec(item.properties.as_str(), "cover-image", false) && is_asset(item) {
            return Some(item.absolute_path.clone());
        }
        assert(live.skip(i as int).drop_first() =~= live.skip(i + 1));
        i += 1;
    }
    assert(live.skip(i as int) =~= Seq::<ItemView>::empty());
    match first_cover_meta_exec(opf_doc) {
        Some(m) => match opf_doc.attribute(m, "content") {
            Some(id) => match manifest.get(id.as_str()) {
                Some(item) => {
                    if is_asset(item) {
                        return Some(item.absolute_path.clone());
                    }
                    if is_xhtml_item(item) {
                        return first_image_in_xhtml(entries, item.absolute_path.as_str());
                    }
                },
                None => {},
            },
            None => {},
        },
        None => {},
    }
    assert(cover_from_meta(ev, manifest@, n) is None);
    let d = opf_doc.descendants(0);
    let ghost dv = usize_seq(d@);
    let mut k: usize = 0;
    assert(dv.skip(0) =~= dv);
    while k < d.len()
        invariant
            k <= d@.len(),
            opf_doc.wf(),
            n == opf_doc.view_nodes(),
            ev == entries_view(entries@),
            spec_cover_item(live_items_from(manifest.pairs_view(), 0)) is None,
            cover_from_meta(ev, manifest@, n) is None,
            dv == usize_seq(d@),
            dv == desc(n, 0),
            forall|q: int| 0 <= q < d@.len() ==> #[trigger] d@[q] < opf_doc.nodes@.len(),
            cover_from_references(ev, n, dv.skip(k as int), opf_base_directory@) == cover_from_references(ev, n, dv, opf_base_directory@),
        decreases d@.len() - k,
    {
        let j = d[k];
        assert(dv.skip(k as int)[0] == j as int);
        let mut cover = false;
        if opf_doc.element_named(j, "reference") {
            match opf_doc.attribute(j, "type") {
                Some(t) => {
                    cover = chars_eq_ignore_ascii_case(&chars_of(t.as_str()), &chars_of("cover"));
                },
                None => {},
            }
        }
        assert(cover == is_cover_reference(n, j as int));
        if cover {
            match opf_doc.attribute(j, "href") {
                Some(href) => {
                    let no_fragment = remove_fragment(href.as_str());
                    let page = normalize_path(join_path(opf_base_directory, no_fragment.as_str()).as_str());
                    let image = first_image_in_xhtml(entries, page.as_str());
                    if image.is_some() {
                        return image;
                    }
                },
                None => {},
            }
        }
        assert(dv.skip(k as int).drop_first() =~= dv.skip(k + 1));
        k += 1;
    }
    assert(dv.skip(k as int) =~= Seq::<int>::empty());
    None
}

/// The metadata as plain values: title, creators, language, publisher,
/// date, identifier.
pub type MetadataView = (Seq<char>, Seq<Seq<char>>, Option<Seq<char>>, Option<Seq<char>>, Option<Seq<char>>, Option<Seq<char>>);

pub open spec fn metadata_view(m: Metadata) -> MetadataView {
    (m.title@, strings_view(m.creators@), opt_view(m.language), opt_view(m.publisher), opt_view(m.date), opt_view(m.identifier))
}

/// Where the metadata is read: the `metadata` element, else the document
/// element.
pub open spec fn metadata_scope(n: Seq<NodeView>) -> Option<int> {
    match first_named(n, desc(n, 0), "metadata"@) {
        Some(m) => Some(m),
        None => first_element(n, children(n, 0)),
    }
}

/// The text of the first element named `name` under `scope`.
pub open spec fn first_text(n: Seq<NodeView>, scope: int, name: Seq<char>) -> Option<Seq<char>> {
    match first_named(n, desc(n, scope), name) {
        Some(j) => spec_collapsed_text(n, j),
        None => None,
    }
}

/// The texts of the `creator` elements of `list` that have text.
pub open spec fn creators_of(n: Seq<NodeView>, list: Seq<int>) -> Seq<Seq<char>>
    decreases list.len(),
{
    if list.len() == 0 {
        Seq::empty()
    } else {
        let rest = creators_of(n, list.drop_last());
        let j = list.last();
        if named(n, j, "creator"@) && spec_collapsed_text(n, j) is Some {
            rest.push(spec_collapsed_text(n, j)->0)
        } else {
            rest
        }
    }
}

pub open spec fn spec_metadata(n: Seq<NodeView>, fallback_title: Seq<char>) -> MetadataView {
    match metadata_scope(n) {
        Some(s) => (
            match first_text(n, s, "title"@) {
                Some(t) => t,
                None => fallback_title,
            },
            creators_of(n, desc(n, s)),
            first_text(n, s, "language"@),
            first_text(n, s, "publisher"@),
            first_text(n, s, "date"@),
            first_text(n, s, "identifier"@),
        ),
        None => (fallback_title, Seq::empty(), None, None, None, None),
    }
}

pub fn parse_metadata(doc: &XmlDoc, fallback_title: &str) -> (r: Metadata)
    requires
        doc.wf(),
    ensures
        metadata_view(r) == spec_metadata(doc.view_nodes(), fallback_title@),
{
    let ghost n = doc.view_nodes();
    let scope = match doc.find_descendant(0, "metadata") {
        Some(m) => m,
        None => match doc.root_element() {
            Some(e) => e,
            None => {
                let r = Metadata {
                    title: string_of(&chars_of(fallback_title)),
                    creators: Vec::new(),
                    language: None,
                    publisher: None,
                    date: None,
                    identifier: None,
                };
                assert(strings_view(r.creators@) =~= Seq::<Seq<char>>::empty());
                return r;
            },
        },
    };
    assert(metadata_scope(n) == Some(scope as int));
    let title = match doc.first_descendant_text(scope, "title") {
        Some(t) => t,
        None => string_of(&chars_of(fallback_title)),
    };
    let d = doc.descendants(scope);
    let ghost dv = usize_seq(d@);
    let mut creators: Vec<String> = Vec::new();
    let mut k: usize = 0;
    assert(strings_view(creators@) =~= creators_of(n, dv.take(0)));
    while k < d.len()
        invariant
            k <= d@.len(),
            doc.wf(),
            n == doc.view_nodes(),
            dv == usize_seq(d@),
            forall|q: int| 0 <= q < d@.len() ==> #[trigger] d@[q] < doc.nodes@.len(),
            strings_view(creators@) == creators_of(n, dv.take(k as int)),
        decreases d@.len() - k,
    {
        let ghost t = dv.take(k + 1);
        assert(t.drop_last() =~= dv.take(k as int));
        assert(t.last() == d@[k as int] as int);
        let j = d[k];
        if doc.element_named(j, "creator") {
            match doc.collapsed_text(j) {
                Some(c) => {
                    let ghost before = strings_view(creators@);
                    creators.push(c);
                    assert(strings_view(creators@) =~= before.push(c@));
                },
                None => {},
            }
        }
        k += 1;
    }
    assert(dv.take(d@.len() as int) =~= dv);
    Metadata {
        title,
        creators,
        language: doc.first_descendant_text(scope, "language"),
        publisher: doc.first_descendant_text(scope, "publisher"),
        date: doc.first_descendant_text(scope, "date"),
        identifier: doc.first_descendant_text(scope, "identifier"),
    }
}


/// Where every EPUB names its package document.
pub open spec fn container_path() -> Seq<char> {
    "META-INF/container.xml"@
}

/// The parsed document of a file of the book, when the book holds it, it
/// is UTF-8 and it parses.
pub open spec fn spec_doc_of(entries: Map<Seq<char>, Seq<u8>>, path: Seq<char>) -> Option<Seq<NodeView>> {
    if entries.contains_key(path) && valid_utf8(entries[path]) {
        spec_parse_doc(decode_utf8(entries[path]))
    } else {
        None
    }
}

/// The `full-path` of the container's first `rootfile`, when not empty.
pub open spec fn spec_rootfile(n: Seq<NodeView>) -> Option<Seq<char>> {
    match first_named(n, desc(n, 0), "rootfile"@) {
        Some(r) => match attr(n, r, "full-path"@) {
            Some(p) => if p.len() > 0 { Some(p) } else { None },
            None => None,
        },
        None => None,
    }
}

/// The path of the package document that the container names.
pub open spec fn spec_opf_path(entries: Map<Seq<char>, Seq<u8>>) -> Option<Seq<char>> {
    match spec_doc_of(entries, container_path()) {
        Some(c) => match spec_rootfile(c) {
            Some(p) => Some(spec_normalize_path(p)),
            None => None,
        },
        None => None,
    }
}

pub open spec fn attr_or_empty(n: Seq<NodeView>, j: int, name: Seq<char>) -> Seq<char> {
    match attr(n, j, name) {
        Some(v) => v,
        None => Seq::empty(),
    }
}

/// A manifest `item` with an `id` and an `href`: its id, and the item
/// with its path resolved against `base` and its properties lowercased.
pub open spec fn manifest_entry(n: Seq<NodeView>, j: int, base: Seq<char>) -> Option<(Seq<char>, ItemView)> {
    if named(n, j, "item"@) {
        match (attr(n, j, "id"@), attr(n, j, "href"@)) {
            (Some(id), Some(h)) => Some((id, (
                h,
                attr_or_empty(n, j, "media-type"@),
                spec_normalize_path(spec_join_path(base, h)),
                lowercase(attr_or_empty(n, j, "properties"@)),
            ))),
            _ => None,
        }
    } else {
        None
    }
}

/// The manifest entries of `list`, in document order.
pub open spec fn manifest_entries(n: Seq<NodeView>, list: Seq<int>, base: Seq<char>) -> Seq<(Seq<char>, ItemView)>
    decreases list.len(),
{
    if list.len() == 0 {
        Seq::empty()
    } else {
        let rest = manifest_entries(n, list.drop_last(), base);
        match manifest_entry(n, list.last(), base) {
            Some(e) => rest.push(e),
            None => rest,
        }
    }
}

/// The `idref`s of the `itemref`s of `list`, in document order.
pub open spec fn spine_ids(n: Seq<NodeView>, list: Seq<int>) -> Seq<Seq<char>>
    decreases list.len(),
{
    if list.len() == 0 {
        Seq::empty()
    } else {
        let rest = spine_ids(n, list.drop_last());
        let j = list.last();
        if named(n, j, "itemref"@) {
            match attr(n, j, "idref"@) {
                Some(id) => rest.push(id),
                None => rest,
            }
        } else {
            rest
        }
    }
}

pub open spec fn declares(es: Seq<(Seq<char>, ItemView)>, id: Seq<char>) -> bool {
    exists|k: int| 0 <= k < es.len() && (#[trigger] es[k]).0 == id
}

/// The first of `ids` that `es` does not declare.
pub open spec fn first_undeclared(es: Seq<(Seq<char>, ItemView)>, ids: Seq<Seq<char>>) -> Seq<char>
    decreases ids.len(),
{
    if ids.len() == 0 {
        Seq::empty()
    } else if !declares(es, ids[0]) {
        ids[0]
    } else {
        first_undeclared(es, ids.drop_first())
    }
}

proof fn lemma_first_undeclared(es: Seq<(Seq<char>, ItemView)>, ids: Seq<Seq<char>>, w: int)
    requires
        0 <= w < ids.len(),
        !declares(es, ids[w]),
        forall|q: int| 0 <= q < w ==> declares(es, #[trigger] ids[q]),
    ensures
        first_undeclared(es, ids) == ids[w],
    decreases w,
{
    if w > 0 {
        assert(declares(es, ids[0]));
        let r = ids.drop_first();
        assert forall|q: int| 0 <= q < w - 1 implies declares(es, #[trigger] r[q]) by {
            assert(r[q] == ids[q + 1]);
        }
        lemma_first_undeclared(es, r, w - 1);
    }
}

/// Why the package of a book cannot be read, in the order of the checks:
/// whether the book is no EPUB at all (else it is a malformed one), and
/// the message.
pub open spec fn spec_package_error(entries: Map<Seq<char>, Seq<u8>>) -> (bool, Seq<char>) {
    let c = container_path();
    if !entries.contains_key(c) {
        (true, "missing META-INF/container.xml"@)
    } else if !valid_utf8(entries[c]) {
        (false, "container.xml is not valid UTF-8"@)
    } else if spec_doc_of(entries, c) is None {
        (false, "container.xml could not be parsed"@)
    } else if spec_rootfile(spec_doc_of(entries, c)->0) is None {
        (false, "container.xml does not declare an OPF rootfile"@)
    } else {
        let opf = spec_opf_path(entries)->0;
        if !entries.contains_key(opf) {
            (false, "OPF file not found at "@ + opf)
        } else if !valid_utf8(entries[opf]) {
            (false, "OPF file is not valid UTF-8 at "@ + opf)
        } else if spec_doc_of(entries, opf) is None {
            (false, "OPF file could not be parsed at "@ + opf)
        } else {
            let n = spec_doc_of(entries, opf)->0;
            let es = manifest_entries(n, desc(n, 0), spec_parent_dir(opf));
            let ids = spine_ids(n, desc(n, 0));
            if es.len() == 0 {
                (false, "OPF manifest is empty"@)
            } else if !(forall|k: int| 0 <= k < ids.len() ==> declares(es, #[trigger] ids[k])) {
                (false, "spine references missing manifest item "@ + first_undeclared(es, ids))
            } else {
                (false, "OPF spine is empty"@)
            }
        }
    }
}

/// `e` is the error of that kind with that message.
pub open spec fn package_error_is(e: ConversionError, invalid: bool, message: Seq<char>) -> bool {
    if invalid {
        e matches ConversionError::InvalidEpub(m) && m@ == message
    } else {
        e matches ConversionError::MalformedEpub(m) && m@ == message
    }
}

/// A book whose package can be read: the container names a package
/// document that parses, whose manifest and spine are not empty and whose
/// spine names only items of the manifest.
pub open spec fn spec_package_ok(entries: Map<Seq<char>, Seq<u8>>) -> bool {
    match spec_opf_path(entries) {
        Some(opf) => match spec_doc_of(entries, opf) {
            Some(n) => {
                let es = manifest_entries(n, desc(n, 0), spec_parent_dir(opf));
                let ids = spine_ids(n, desc(n, 0));
                &&& es.len() > 0
                &&& ids.len() > 0
                &&& forall|k: int| 0 <= k < ids.len() ==> declares(es, #[trigger] ids[k])
            },
            None => false,
        },
        None => false,
    }
}

pub open spec fn pair_views(p: Seq<(String, ManifestItem)>) -> Seq<(Seq<char>, ItemView)> {
    p.map_values(|e: (String, ManifestItem)| (e.0@, item_view(e.1)))
}

/// The title of a book without one: the package document's file stem.
pub open spec fn spec_fallback_title(opf: Seq<char>) -> Seq<char> {
    match spec_file_stem(opf) {
        Some(s) => s,
        None => "Book"@,
    }
}

/// What the package of a readable book holds.
pub open spec fn package_matches(p: EpubPackage, entries: Map<Seq<char>, Seq<u8>>) -> bool {
    let opf = spec_opf_path(entries)->0;
    let n = spec_doc_of(entries, opf)->0;
    let base = spec_parent_dir(opf);
    let live = live_items_from(p.manifest.pairs_view(), 0);
    &&& pair_views(p.manifest.pairs_view()) == manifest_entries(n, desc(n, 0), base)
    &&& item_views(p.spine@) == spine_ids(n, desc(n, 0)).map_values(|id: Seq<char>| item_view(p.manifest@[id]))
    &&& metadata_view(p.metadata) == spec_metadata(n, spec_fallback_title(opf))
    &&& p.title@ == p.metadata.title@
    &&& nav_views(p.nav_points@) == spec_navigation_points(entries, live, p.manifest@, n, base)
    &&& opt_view(p.cover_image_path) == spec_cover_image_path(entries, live, p.manifest@, n, base)
}

fn message(text: &str) -> (r: String)
    ensures
        r@ == text@,
{
    string_of(&chars_of(text))
}

fn message_with(text: &str, detail: &str) -> (r: String)
    ensures
        r@ == text@ + detail@,
{
    let mut m = chars_of(text);
    append_chars(&mut m, &chars_of(detail));
    string_of(&m)
}

/// The manifest of a package document: its items by id, in the order
/// they are declared.
pub fn read_manifest(opf_doc: &XmlDoc, base_directory: &str) -> (r: TextMap<ManifestItem>)
    requires
        opf_doc.wf(),
    ensures
        pair_views(r.pairs_view()) == manifest_entries(opf_doc.view_nodes(), desc(opf_doc.view_nodes(), 0), base_directory@),
{
    let ghost n = opf_doc.view_nodes();
    let d = opf_doc.descendants(0);
    let ghost dv = usize_seq(d@);
    let mut manifest: TextMap<ManifestItem> = TextMap::new();
    let mut k: usize = 0;
    assert(pair_views(manifest.pairs_view()) =~= manifest_entries(n, dv.take(0), base_directory@));
    while k < d.len()
        invariant
            k <= d@.len(),
            opf_doc.wf(),
            n == opf_doc.view_nodes(),
            dv == usize_seq(d@),
            forall|q: int| 0 <= q < d@.len() ==> #[trigger] d@[q] < opf_doc.nodes@.len(),
            pair_views(manifest.pairs_view()) == manifest_entries(n, dv.take(k as int), base_directory@),
        decreases d@.len() - k,
    {
        let ghost t = dv.take(k + 1);
        assert(t.drop_last() =~= dv.take(k as int));
        let j = d[k];
        assert(t.last() == j as int);
        let ghost before = pair_views(manifest.pairs_view());
        if opf_doc.element_named(j, "item") {
            match opf_doc.attribute(j, "id") {
                Some(id) => match opf_doc.attribute(j, "href") {
                    Some(href) => {
                        let media_type = match opf_doc.attribute(j, "media-type") {
                            Some(m) => m,
                            None => String::new(),
                        };
                        proof { reveal_strlit(""); }
                        let properties = match opf_doc.attribute(j, "properties") {
                            Some(p) => to_lowercase(p.as_str()),
                            None => {
                                assert(""@ =~= Seq::<char>::empty());
                                to_lowercase("")
                            },
                        };
                        let absolute_path = normalize_path(join_path(base_directory, href.as_str()).as_str());
                        let item = ManifestItem { href, media_type, absolute_path, properties };
                        let ghost id_view = id@;
                        assert(named(n, j as int, "item"@));
                        assert(attr(n, j as int, "id"@) == Some(id_view));
                        assert(attr(n, j as int, "href"@) == Some(item.href@));
                        assert(attr_or_empty(n, j as int, "media-type"@) == item.media_type@);
                        assert(lowercase(attr_or_empty(n, j as int, "properties"@)) == item.properties@);
                        assert(manifest_entry(n, j as int, base_directory@) == Some((id_view, item_view(item))));
                        manifest.insert(id, item);
                        assert(pair_views(manifest.pairs_view()) =~= before.push((id_view, item_view(item))));
                    },
                    None => {},
                },
                None => {},
            }
        }
        k += 1;
    }
    assert(dv.take(d@.len() as int) =~= dv);
    manifest
}

/// The spine: the manifest items that the `itemref`s name, in order, or
/// the first `idref` that names no item.
pub fn read_spine(opf_doc: &XmlDoc, manifest: &TextMap<ManifestItem>) -> (r: Result<Vec<ManifestItem>, String>)
    requires
        opf_doc.wf(),
    ensures
        match r {
            Ok(s) => (forall|q: int| 0 <= q < spine_ids(opf_doc.view_nodes(), desc(opf_doc.view_nodes(), 0)).len()
                    ==> declares(pair_views(manifest.pairs_view()), #[trigger] spine_ids(opf_doc.view_nodes(), desc(opf_doc.view_nodes(), 0))[q]))
                && item_views(s@) == spine_ids(opf_doc.view_nodes(), desc(opf_doc.view_nodes(), 0))
                    .map_values(|id: Seq<char>| item_view(manifest@[id])),
            Err(id) => !(forall|q: int| 0 <= q < spine_ids(opf_doc.view_nodes(), desc(opf_doc.view_nodes(), 0)).len()
                    ==> declares(pair_views(manifest.pairs_view()), #[trigger] spine_ids(opf_doc.view_nodes(), desc(opf_doc.view_nodes(), 0))[q]))
                && id@ == first_undeclared(pair_views(manifest.pairs_view()), spine_ids(opf_doc.view_nodes(), desc(opf_doc.view_nodes(), 0))),
        },
{
    let ghost n = opf_doc.view_nodes();
    let ghost es = pair_views(manifest.pairs_view());
    proof { manifest.lemma_view_is_map_of(); }
    let d = opf_doc.descendants(0);
    let ghost dv = usize_seq(d@);
    let mut spine: Vec<ManifestItem> = Vec::new();
    let mut k: usize = 0;
    assert(spine_ids(n, dv.take(0)) =~= Seq::<Seq<char>>::empty());
    assert(item_views(spine@) =~= Seq::<ItemView>::empty());
    while k < d.len()
        invariant
            k <= d@.len(),
            opf_doc.wf(),
            n == opf_doc.view_nodes(),
            dv == usize_seq(d@),
            dv == desc(n, 0),
            forall|q: int| 0 <= q < d@.len() ==> #[trigger] d@[q] < opf_doc.nodes@.len(),
            es == pair_views(manifest.pairs_view()),
            manifest@ == map_of(manifest.pairs_view()),
            item_views(spine@) == spine_ids(n, dv.take(k as int)).map_values(|id: Seq<char>| item_view(manifest@[id])),
            forall|q: int| 0 <= q < spine_ids(n, dv.take(k as int)).len()
                ==> declares(es, #[trigger] spine_ids(n, dv.take(k as int))[q]),
        decreases d@.len() - k,
    {
        let ghost t = dv.take(k + 1);
        assert(t.drop_last() =~= dv.take(k as int));
        let j = d[k];
        assert(t.last() == j as int);
        let ghost before_ids = spine_ids(n, dv.take(k as int));
        if opf_doc.element_named(j, "itemref") {
            match opf_doc.attribute(j, "idref") {
                Some(idref) => {
                    assert(spine_ids(n, t) == before_ids.push(idref@));
                    proof { lemma_map_of_dom(manifest.pairs_view(), idref@); }
                    match manifest.get(idref.as_str()) {
                        Some(item) => {
                            let ghost before = item_views(spine@);
                            let c = clone_item(item);
                            spine.push(c);
                            assert(item_views(spine@) =~= before.push(item_view(c)));
                            proof {
                                let w = choose|w: int| 0 <= w < manifest.pairs_view().len() && (#[trigger] manifest.pairs_view()[w]).0@ == idref@;
                                assert(es[w].0 == idref@);
                                assert(declares(es, idref@));
                                assert(spine_ids(n, t).map_values(|id: Seq<char>| item_view(manifest@[id]))
                                    =~= before_ids.map_values(|id: Seq<char>| item_view(manifest@[id])).push(item_view(c)));
                            }
                        },
                        None => {
                            proof {
                                assert forall|w: int| 0 <= w < es.len() implies (#[trigger] es[w]).0 != idref@ by {
                                    assert(es[w].0 == manifest.pairs_view()[w].0@);
                                }
                                lemma_spine_ids_prefix(n, dv, k as int + 1);
                                lemma_spine_ids_prefix(n, dv, k as int);
                                let all = spine_ids(n, dv);
                                let w = before_ids.len() as int;
                                assert(spine_ids(n, t)[w] == idref@);
                                assert(all[w] == idref@);
                                assert(!declares(es, all[w]));
                                assert forall|q: int| 0 <= q < w implies declares(es, #[trigger] all[q]) by {
                                    assert(before_ids[q] == all[q]);
                                }
                                lemma_first_undeclared(es, all, w);
                            }
                            return Err(idref);
                        },
                    }
                },
                None => {},
            }
        }
        k += 1;
    }
    assert(dv.take(d@.len() as int) =~= dv);
    Ok(spine)
}

/// The path of the package document, from the container.
fn opf_path(entries: &TextMap<Vec<u8>>) -> (r: Result<String, ConversionError>)
    ensures
        match r {
            Ok(p) => spec_opf_path(entries_view(entries@)) == Some(p@),
            Err(e) => spec_opf_path(entries_view(entries@)) is None
                && package_error_is(e, spec_package_error(entries_view(entries@)).0, spec_package_error(entries_view(entries@)).1),
        },
{
    let ghost ev = entries_view(entries@);
    let container = match entries.get("META-INF/container.xml") {
        Some(c) => c,
        None => return Err(ConversionError::InvalidEpub(message("missing META-INF/container.xml"))),
    };
    assert(ev[container_path()] == container@);
    let container_text = match utf8_text(container.as_slice()) {
        Some(t) => t,
        None => return Err(ConversionError::MalformedEpub(message("container.xml is not valid UTF-8"))),
    };
    let container_doc = match XmlDoc::parse(container_text.as_str()) {
        Some(d) => d,
        None => return Err(ConversionError::MalformedEpub(message("container.xml could not be parsed"))),
    };
    let root_file = match container_doc.find_descendant(0, "rootfile") {
        Some(r) => container_doc.attribute(r, "full-path"),
        None => None,
    };
    match root_file {
        Some(p) => {
            if chars_of(p.as_str()).len() == 0 {
                return Err(ConversionError::MalformedEpub(message("container.xml does not declare an OPF rootfile")));
            }
            Ok(normalize_path(p.as_str()))
        },
        None => Err(ConversionError::MalformedEpub(message("container.xml does not declare an OPF rootfile"))),
    }
}

/// Reads the package of a book from its files: `InvalidEpub` when the
/// container is missing, `MalformedEpub` for every other fault.
pub fn parse_package(entries: &TextMap<Vec<u8>>) -> (r: Result<EpubPackage, ConversionError>)
    ensures
        match r {
            Ok(p) => spec_package_ok(entries_view(entries@)) && package_matches(p, entries_view(entries@)),
            Err(e) => !spec_package_ok(entries_view(entries@))
                && package_error_is(e, spec_package_error(entries_view(entries@)).0, spec_package_error(entries_view(entries@)).1)
                && (e is InvalidEpub <==> !entries@.contains_key(container_path())),
        },
{
    let ghost ev = entries_view(entries@);
    let root_file_path = match opf_path(entries) {
        Ok(p) => p,
        Err(e) => return Err(e),
    };
    let ghost opf = root_file_path@;
    let opf_bytes = match entries.get(root_file_path.as_str()) {
        Some(o) => o,
        None => return Err(ConversionError::MalformedEpub(message_with("OPF file not found at ", root_file_path.as_str()))),
    };
    assert(ev[opf] == opf_bytes@);
    let opf_text = match utf8_text(opf_bytes.as_slice()) {
        Some(t) => t,
        None => return Err(ConversionError::MalformedEpub(message_with("OPF file is not valid UTF-8 at ", root_file_path.as_str()))),
    };
    let opf_doc = match XmlDoc::parse(opf_text.as_str()) {
        Some(d) => d,
        None => return Err(ConversionError::MalformedEpub(message_with("OPF file could not be parsed at ", root_file_path.as_str()))),
    };
    let ghost n = opf_doc.view_nodes();
    assert(spec_doc_of(ev, opf) == Some(n));
    let base_directory = parent_dir(root_file_path.as_str());
    let fallback_title = match file_stem(root_file_path.as_str()) {
        Some(stem) => string_of(&stem),
        None => message("Book"),
    };
    proof { reveal_strlit("Book"); }
    let metadata = parse_metadata(&opf_doc, fallback_title.as_str());
    let title = metadata.title.clone();
    let manifest = read_manifest(&opf_doc, base_directory.as_str());
    if manifest.pairs().len() == 0 {
        return Err(ConversionError::MalformedEpub(message("OPF manifest is empty")));
    }
    let spine = match read_spine(&opf_doc, &manifest) {
        Ok(s) => s,
        Err(idref) => {
            return Err(ConversionError::MalformedEpub(message_with("spine references missing manifest item ", idref.as_str())));
        },
    };
    let ghost es = manifest_entries(n, desc(n, 0), base_directory@);
    let ghost ids = spine_ids(n, desc(n, 0));
    assert(es.len() > 0);
    assert(spec_opf_path(ev) == Some(opf));
    assert(spec_parent_dir(opf) == base_directory@);
    if spine.len() == 0 {
        assert(item_views(spine@).len() == 0);
        assert(ids.map_values(|id: Seq<char>| item_view(manifest@[id])).len() == ids.len());
        assert(ids.len() == 0);
        assert(!spec_package_ok(ev));
        assert(entries@.contains_key(container_path()));
        return Err(ConversionError::MalformedEpub(message("OPF spine is empty")));
    }
    let nav_points = parse_navigation_points(entries, &manifest, &opf_doc, base_directory.as_str());
    let cover_image_path = find_cover_image_path(entries, &manifest, &opf_doc, base_directory.as_str());
    let p = EpubPackage { title, manifest, spine, metadata, nav_points, cover_image_path };
    assert(item_views(spine@).len() > 0);
    assert(ids.map_values(|id: Seq<char>| item_view(manifest@[id])).len() == ids.len());
    assert(ids.len() > 0);
    assert(forall|k: int| 0 <= k < ids.len() ==> declares(es, #[trigger] ids[k]));
    assert(spec_package_ok(ev));
    assert(package_matches(p, ev));
    Ok(p)
}

/// The `idref`s of a prefix of a list begin the `idref`s of the list.
proof fn lemma_spine_ids_prefix(n: Seq<NodeView>, list: Seq<int>, k: int)
    requires
        0 <= k <= list.len(),
    ensures
        spine_ids(n, list.take(k)).len() <= spine_ids(n, list).len(),
        forall|q: int| 0 <= q < spine_ids(n, list.take(k)).len() ==> #[trigger] spine_ids(n, list.take(k))[q] == spine_ids(n, list)[q],
    decreases list.len() - k,
{
    if k < list.len() {
        lemma_spine_ids_prefix(n, list, k + 1);
        assert(list.take(k + 1).drop_last() =~= list.take(k));
        let a = spine_ids(n, list.take(k));
        let b = spine_ids(n, list.take(k + 1));
        assert(b.len() >= a.len());
        assert forall|q: int| 0 <= q < a.len() implies #[trigger] a[q] == spine_ids(n, list)[q] by {
            assert(b[q] == a[q]);
        }
    } else {
        assert(list.take(k) =~= list);
    }
}

} // verus!

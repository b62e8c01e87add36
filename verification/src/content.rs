//! The book's XHTML content documents: their text, titles, anchors,
//! images, and their conversion to Markdown.
use vstd::prelude::*;
use vstd::utf8::{valid_utf8, decode_utf8};
use crate::text::{chars_of, string_of, append_chars, trim, trim_chars, to_lowercase, lowercase, starts_with_chars, str_eq};
use crate::regex_calls::{regex_replaced_first, regex_replace_first};
use crate::xml::{XmlDoc, NodeView, XmlKind, spec_parse_doc, children, desc, usize_seq, first_named, spec_collapsed_text, first_element, opt_chars, lemma_children};
use crate::render::{
    RenderContext, Ctx, ctx_view, named, is_list, valid, r_mixed, kids_safe, check_kids_safe, ChildRendering,
    render_mixed_block_contents, attr,
};
use crate::cleanup::{spec_cleanup, cleanup};
use crate::assets::{AssetMapper, AssetMapperView, spec_record, spec_asset_link, entries_view, has_prefix, spec_unique_name, assets_well_named, law_record_keeps_asset_paths_distinct};
use crate::paths::{parent_dir, spec_parent_dir, remove_fragment, spec_remove_fragment, join_path, spec_join_path, normalize_path, spec_normalize_path};
use crate::textmap::TextMap;
use crate::links::ChapterLinkMap;
use crate::model::opt_view;
use crate::ConversionError;

verus! {

broadcast use vstd::string::group_string_axioms;

/// `std::str::from_utf8`: the text of the bytes when they are valid
/// UTF-8.  The contract states what the function's documentation says:
/// it succeeds exactly on valid UTF-8, and the text is the decoding.
#[verifier::external_body]
pub(crate) fn utf8_text(data: &[u8]) -> (r: Option<String>)
    ensures
        match r {
            Some(s) => valid_utf8(data@) && s@ == decode_utf8(data@),
            None => !valid_utf8(data@),
        },
{
    std::str::from_utf8(data).ok().map(|s| s.to_string())
}

pub open spec fn doctype_pattern() -> Seq<char> {
    r"(?is)<!DOCTYPE[^>]*>"@
}

/// The text without its first `<!DOCTYPE ...>` declaration, which the
/// XML parser would refuse.
pub fn strip_doctype(input: &str) -> (r: String)
    ensures
        r@ == regex_replaced_first(doctype_pattern(), input@, ""@),
{
    regex_replace_first(r"(?is)<!DOCTYPE[^>]*>", input, "")
}

/// The document that an XHTML file's bytes hold: valid UTF-8, the doctype
/// left out, parsed.
pub open spec fn spec_xhtml_doc(data: Seq<u8>) -> Option<Seq<NodeView>> {
    if valid_utf8(data) {
        spec_parse_doc(regex_replaced_first(doctype_pattern(), decode_utf8(data), ""@))
    } else {
        None
    }
}

pub fn parse_xhtml(data: &[u8]) -> (r: Option<XmlDoc>)
    ensures
        match r {
            Some(d) => d.wf() && spec_xhtml_doc(data@) == Some(d.view_nodes()),
            None => spec_xhtml_doc(data@) is None,
        },
{
    let text = match utf8_text(data) {
        Some(t) => t,
        None => return None,
    };
    let content = strip_doctype(text.as_str());
    XmlDoc::parse(content.as_str())
}

/// The node that a content document's Markdown comes from: its first
/// `body` element, or else its document element.
pub open spec fn content_root(n: Seq<NodeView>) -> Option<int> {
    match first_named(n, desc(n, 0), "body"@) {
        Some(b) => Some(b),
        None => first_element(n, children(n, 0)),
    }
}

/// Why a content document could not be converted, rendered in context
/// `cx`.
pub closed spec fn conversion_failure(data: Seq<u8>, cx: Ctx) -> bool {
    !valid_utf8(data) || spec_xhtml_doc(data) is None || content_root(spec_xhtml_doc(data)->0) is None
        || !kids_safe(spec_xhtml_doc(data)->0, cx, content_root(spec_xhtml_doc(data)->0)->0, ChildRendering::Mixed)
}

/// The error that a document that cannot be converted gives, by the
/// first check it fails.
pub open spec fn xhtml_error_is(e: ConversionError, data: Seq<u8>, path: Seq<char>) -> bool {
    if !valid_utf8(data) {
        e matches ConversionError::MalformedEpub(m) && m@ == "content file is not valid UTF-8: "@ + path
    } else if spec_xhtml_doc(data) is None {
        e matches ConversionError::MalformedEpub(m) && m@ == "content file could not be parsed: "@ + path
    } else if content_root(spec_xhtml_doc(data)->0) is None {
        e matches ConversionError::Conversion(m) && m@ == "content file has no root element: "@ + path
    } else {
        e matches ConversionError::Conversion(m) && m@ == "list item outside a list in "@ + path
    }
}

/// A content document as Markdown: its body rendered and cleaned up.
/// It fails on bytes that are not UTF-8, on text that does not parse, and
/// on a document whose body would have the renderer meet a list item
/// outside a list, where it would not come to an end.
pub fn convert_xhtml_to_markdown(
    data: &[u8],
    current_epub_path: &str,
    asset_mapper: &AssetMapper,
    chapter_links: &ChapterLinkMap,
) -> (r: Result<String, ConversionError>)
    ensures
        match r {
            Ok(md) => !conversion_failure(data@, ctx_view(RenderContext { current_epub_path, asset_mapper, chapter_links }))
                && md@ == spec_cleanup(r_mixed(
                spec_xhtml_doc(data@)->0,
                ctx_view(RenderContext { current_epub_path, asset_mapper, chapter_links }),
                content_root(spec_xhtml_doc(data@)->0)->0,
            )),
            Err(e) => conversion_failure(data@, ctx_view(RenderContext { current_epub_path, asset_mapper, chapter_links }))
                && xhtml_error_is(e, data@, current_epub_path@),
        },
{
    let text = match utf8_text(data) {
        Some(t) => t,
        None => {
            let mut m = chars_of("content file is not valid UTF-8: ");
            append_chars(&mut m, &chars_of(current_epub_path));
            return Err(ConversionError::MalformedEpub(string_of(&m)));
        },
    };
    let content = strip_doctype(text.as_str());
    let doc = match XmlDoc::parse(content.as_str()) {
        Some(d) => d,
        None => {
            let mut m = chars_of("content file could not be parsed: ");
            append_chars(&mut m, &chars_of(current_epub_path));
            return Err(ConversionError::MalformedEpub(string_of(&m)));
        },
    };
    let ghost n = doc.view_nodes();
    let all = doc.descendants(0);
    let root = match doc.first_in(&all, "body") {
        Some(b) => b,
        None => match doc.root_element() {
            Some(e) => e,
            None => {
                let mut m = chars_of("content file has no root element: ");
                append_chars(&mut m, &chars_of(current_epub_path));
                return Err(ConversionError::Conversion(string_of(&m)));
            },
        },
    };
    let context = RenderContext { current_epub_path, asset_mapper, chapter_links };
    if !check_kids_safe(&doc, &context, root, ChildRendering::Mixed) {
        let mut m = chars_of("list item outside a list in ");
        append_chars(&mut m, &chars_of(current_epub_path));
        return Err(ConversionError::Conversion(string_of(&m)));
    }
    let md = render_mixed_block_contents(&doc, &context, root);
    Ok(cleanup(string_of(&md).as_str()))
}

/// The title of a content document: the text of its first `h1`, else of
/// its first `h2`, else of its first `h3`, else of its `title`.
pub open spec fn spec_chapter_title(data: Seq<u8>) -> Option<Seq<char>> {
    match spec_xhtml_doc(data) {
        None => None,
        Some(n) => {
            let all = desc(n, 0);
            let text_of = |name: Seq<char>| match first_named(n, all, name) {
                Some(j) => spec_collapsed_text(n, j),
                None => None,
            };
            if text_of("h1"@) is Some {
                text_of("h1"@)
            } else if text_of("h2"@) is Some {
                text_of("h2"@)
            } else if text_of("h3"@) is Some {
                text_of("h3"@)
            } else {
                text_of("title"@)
            }
        },
    }
}

pub fn chapter_title(data: &[u8]) -> (r: Option<String>)
    ensures
        opt_chars(r) == spec_chapter_title(data@),
{
    let doc = match parse_xhtml(data) {
        Some(d) => d,
        None => return None,
    };
    if let Some(t) = doc.first_descendant_text(0, "h1") {
        return Some(t);
    }
    if let Some(t) = doc.first_descendant_text(0, "h2") {
        return Some(t);
    }
    if let Some(t) = doc.first_descendant_text(0, "h3") {
        return Some(t);
    }
    doc.first_descendant_text(0, "title")
}

/// The anchor of an element: its `id`, or without one its `name`, when
/// not blank.
pub open spec fn anchor_id(n: Seq<NodeView>, j: int) -> Option<Seq<char>> {
    let v = match attr(n, j, "id"@) {
        Some(x) => Some(x),
        None => attr(n, j, "name"@),
    };
    match v {
        Some(x) => if trim(x).len() > 0 { Some(x) } else { None },
        None => None,
    }
}

pub open spec fn anchor_scan(n: Seq<NodeView>, list: Seq<int>) -> Seq<Seq<char>>
    decreases list.len(),
{
    if list.len() == 0 {
        Seq::empty()
    } else {
        let ids = anchor_scan(n, list.drop_last());
        let j = list.last();
        if 0 <= j < n.len() && n[j].kind == XmlKind::Element {
            match anchor_id(n, j) {
                Some(x) => if ids.contains(x) { ids } else { ids.push(x) },
                None => ids,
            }
        } else {
            ids
        }
    }
}

/// The anchors of a content document in document order, each once.
pub open spec fn spec_anchor_ids(data: Seq<u8>) -> Seq<Seq<char>> {
    match spec_xhtml_doc(data) {
        Some(n) => anchor_scan(n, desc(n, 0)),
        None => Seq::empty(),
    }
}

fn contains_id(ids: &Vec<String>, x: &str) -> (r: bool)
    ensures
        r == ids@.map_values(|s: String| s@).contains(x@),
{
    let ghost v = ids@.map_values(|s: String| s@);
    let mut k: usize = 0;
    while k < ids.len()
        invariant
            k <= ids@.len(),
            v == ids@.map_values(|s: String| s@),
            forall|q: int| 0 <= q < k ==> v[q] != x@,
        decreases ids@.len() - k,
    {
        if str_eq(ids[k].as_str(), x) {
            assert(v[k as int] == x@);
            return true;
        }
        k += 1;
    }
    false
}

pub fn xhtml_anchor_ids(data: &[u8]) -> (r: Vec<String>)
    ensures
        r@.map_values(|s: String| s@) == spec_anchor_ids(data@),
{
    let mut ids: Vec<String> = Vec::new();
    let doc = match parse_xhtml(data) {
        Some(d) => d,
        None => {
            assert(ids@.map_values(|s: String| s@) =~= Seq::<Seq<char>>::empty());
            return ids;
        },
    };
    let ghost n = doc.view_nodes();
    let all = doc.descendants(0);
    let ghost av = usize_seq(all@);
    let mut k: usize = 0;
    assert(ids@.map_values(|s: String| s@) =~= Seq::<Seq<char>>::empty());
    while k < all.len()
        invariant
            k <= all@.len(),
            n == doc.view_nodes(),
            av == usize_seq(all@),
            forall|q: int| 0 <= q < all@.len() ==> #[trigger] all@[q] < doc.nodes@.len(),
            ids@.map_values(|s: String| s@) == anchor_scan(n, av.take(k as int)),
        decreases all@.len() - k,
    {
        let ghost t = av.take(k + 1);
        assert(t.drop_last() =~= av.take(k as int));
        let j = all[k];
        assert(t.last() == j as int);
        if doc.is_element(j) {
            let v = match doc.attribute(j, "id") {
                Some(x) => Some(x),
                None => doc.attribute(j, "name"),
            };
            match v {
                Some(x) => {
                    if trim_chars(&chars_of(x.as_str())).len() > 0 && !contains_id(&ids, x.as_str()) {
                        let ghost before = ids@.map_values(|s: String| s@);
                        let ghost xv = x@;
                        ids.push(x);
                        assert(ids@.map_values(|s: String| s@) =~= before.push(xv));
                    }
                },
                None => {},
            }
        }
        k += 1;
    }
    assert(av.take(all@.len() as int) =~= av);
    ids
}

/// A link that leaves the book or is inline data: nothing to copy.
pub open spec fn is_remote_image(src: Seq<char>) -> bool {
    has_prefix(lowercase(src), "http://"@) || has_prefix(lowercase(src), "https://"@)
        || has_prefix(lowercase(src), "data:"@)
}

/// The `src` of each `img` of the document, in order, when not empty.
pub open spec fn image_sources(n: Seq<NodeView>, list: Seq<int>) -> Seq<Seq<char>>
    decreases list.len(),
{
    if list.len() == 0 {
        Seq::empty()
    } else {
        let rest = image_sources(n, list.drop_last());
        let j = list.last();
        if named(n, j, "img"@) {
            match attr(n, j, "src"@) {
                Some(s) => if s.len() > 0 { rest.push(s) } else { rest },
                None => rest,
            }
        } else {
            rest
        }
    }
}

/// The mapper after the images `srcs` were made available, or the first
/// image that the book lacks.
pub open spec fn images_fold(m: AssetMapperView, srcs: Seq<Seq<char>>, base: Seq<char>, entries: Map<Seq<char>, Seq<u8>>) -> (AssetMapperView, Option<Seq<char>>)
    decreases srcs.len(),
{
    if srcs.len() == 0 {
        (m, None)
    } else {
        let (m2, missing) = images_fold(m, srcs.drop_last(), base, entries);
        if missing is Some { (m2, missing) } else { image_step(m2, srcs.last(), base, entries) }
    }
}

/// One image: nothing to do for a remote one or one already copied; one
/// that the book holds is copied; one it lacks is the missing image.
pub open spec fn image_step(m: AssetMapperView, src: Seq<char>, base: Seq<char>, entries: Map<Seq<char>, Seq<u8>>) -> (AssetMapperView, Option<Seq<char>>) {
    if is_remote_image(src) {
        (m, None)
    } else {
        let no_fragment = spec_remove_fragment(src);
        let absolute = spec_normalize_path(spec_join_path(base, no_fragment));
        if spec_asset_link(m.links, src, base) is Some {
            (m, None)
        } else if entries.contains_key(absolute) {
            (spec_record(m, absolute, seq![absolute, no_fragment], entries[absolute]), None)
        } else {
            (m, Some(src))
        }
    }
}

fn ensure_one_image(src: &str, base: &str, entries: &TextMap<Vec<u8>>, asset_mapper: &mut AssetMapper) -> (ok: bool)
    ensures
        (final(asset_mapper)@, if ok { None } else { Some(src@) })
            == image_step(old(asset_mapper)@, src@, base@, entries_view(entries@)),
{
    proof {
        reveal_strlit("http://");
        reveal_strlit("https://");
        reveal_strlit("data:");
    }
    let lower = chars_of(to_lowercase(src).as_str());
    if starts_with_str(&lower, "http://") || starts_with_str(&lower, "https://") || starts_with_str(&lower, "data:") {
        return true;
    }
    let copied = asset_mapper.copy_referenced_asset_if_present(src, base, entries);
    proof {
        let no_fragment = spec_remove_fragment(src@);
        let absolute = spec_normalize_path(spec_join_path(base@, no_fragment));
        if entries@.contains_key(absolute) {
            assert(entries_view(entries@)[absolute] == entries@[absolute]@);
        }
    }
    match copied {
        Ok(Some(_)) => true,
        _ => false,
    }
}

proof fn lemma_image_sources_prefix(n: Seq<NodeView>, list: Seq<int>, m: int)
    requires
        0 <= m <= list.len(),
    ensures
        image_sources(n, list.take(m)).len() <= image_sources(n, list).len(),
        image_sources(n, list).take(image_sources(n, list.take(m)).len() as int) == image_sources(n, list.take(m)),
    decreases list.len(),
{
    if m == list.len() {
        assert(list.take(m) =~= list);
        assert(image_sources(n, list).take(image_sources(n, list).len() as int) =~= image_sources(n, list));
    } else {
        let l2 = list.drop_last();
        lemma_image_sources_prefix(n, l2, m);
        assert(l2.take(m) =~= list.take(m));
        let a = image_sources(n, l2);
        let b = image_sources(n, list);
        let len = image_sources(n, list.take(m)).len();
        assert(b.take(len as int) =~= a.take(len as int));
    }
}

proof fn lemma_images_fold_sticky(m: AssetMapperView, srcs: Seq<Seq<char>>, p: int, base: Seq<char>, entries: Map<Seq<char>, Seq<u8>>)
    requires
        0 <= p <= srcs.len(),
        images_fold(m, srcs.take(p), base, entries).1 is Some,
    ensures
        images_fold(m, srcs, base, entries) == images_fold(m, srcs.take(p), base, entries),
    decreases srcs.len(),
{
    if srcs.len() > p {
        assert(srcs.drop_last().take(p) =~= srcs.take(p));
        lemma_images_fold_sticky(m, srcs.drop_last(), p, base, entries);
    } else {
        assert(srcs.take(p) =~= srcs);
    }
}

fn starts_with_str(v: &Vec<char>, p: &str) -> (r: bool)
    ensures
        r == has_prefix(v@, p@),
{
    starts_with_chars(v, &chars_of(p))
}

/// Copies every image that the document links to from the book: an
/// image the book lacks is an error.  Bytes that do not make a document
/// have nothing to copy.
pub fn ensure_referenced_images_are_available(
    data: &[u8],
    current_epub_path: &str,
    entries: &TextMap<Vec<u8>>,
    asset_mapper: &mut AssetMapper,
) -> (r: Result<(), ConversionError>)
    ensures
        match spec_xhtml_doc(data@) {
            None => r is Ok && final(asset_mapper)@ == old(asset_mapper)@,
            Some(n) => {
                let (m, missing) = images_fold(old(asset_mapper)@, image_sources(n, desc(n, 0)),
                    spec_parent_dir(current_epub_path@), entries_view(entries@));
                &&& final(asset_mapper)@ == m
                &&& (r is Ok <==> missing is None)
                &&& (missing matches Some(src) ==> r matches Err(ConversionError::MalformedEpub(msg))
                    && msg@ == "referenced image asset is missing or not declared: "@ + src)
            },
        },
{
    let doc = match parse_xhtml(data) {
        Some(d) => d,
        None => return Ok(()),
    };
    let ghost n = doc.view_nodes();
    let base = parent_dir(current_epub_path);
    let all = doc.descendants(0);
    let ghost av = usize_seq(all@);
    let ghost start = asset_mapper@;
    let ghost ev = entries_view(entries@);
    let mut k: usize = 0;
    assert(n.len() == doc.nodes@.len());
    assert(av.take(0) =~= Seq::<int>::empty());
    while k < all.len()
        invariant
            k <= all@.len(),
            n == doc.view_nodes(),
            av == usize_seq(all@),
            ev == entries_view(entries@),
            n.len() == doc.nodes@.len(),
            spec_xhtml_doc(data@) == Some(n),
            start == old(asset_mapper)@,
            base@ == spec_parent_dir(current_epub_path@),
            av == desc(n, 0),
            forall|q: int| 0 <= q < all@.len() ==> #[trigger] all@[q] < doc.nodes@.len(),
            images_fold(start, image_sources(n, av.take(k as int)), base@, ev) == (asset_mapper@, None::<Seq<char>>),
        decreases all@.len() - k,
    {
        let ghost t = av.take(k + 1);
        assert(t.drop_last() =~= av.take(k as int));
        let j = all[k];
        assert(t.last() == j as int);
        let ghost before_srcs = image_sources(n, av.take(k as int));
        let ghost m_before = asset_mapper@;
        let mut src_opt: Option<String> = None;
        if doc.element_named(j, "img") {
            match doc.attribute(j, "src") {
                Some(src) => {
                    if !src.as_str().is_empty() {
                        src_opt = Some(src);
                    }
                },
                None => {},
            }
        }
        match src_opt {
            Some(src) => {
                assert(image_sources(n, t) == before_srcs.push(src@));
                assert(before_srcs.push(src@).drop_last() =~= before_srcs);
                let ok = ensure_one_image(src.as_str(), base.as_str(), entries, asset_mapper);
                assert(images_fold(start, before_srcs.push(src@), base@, ev)
                    == image_step(m_before, src@, base@, ev));
                if !ok {
                    let mut m = chars_of("referenced image asset is missing or not declared: ");
                    append_chars(&mut m, &chars_of(src.as_str()));
                    proof {
                        let srcs_k = image_sources(n, t);
                        assert(images_fold(start, srcs_k, base@, ev).1 == Some(src@));
                        lemma_image_sources_prefix(n, av, k + 1);
                        let all_srcs = image_sources(n, av);
                        lemma_images_fold_sticky(start, all_srcs, srcs_k.len() as int, base@, ev);
                        assert(av.take(all@.len() as int) =~= av);
                    }
                    return Err(ConversionError::MalformedEpub(string_of(&m)));
                }
            },
            None => {
                assert(image_sources(n, t) == before_srcs);
            },
        }
        k += 1;
    }
    assert(av.take(all@.len() as int) =~= av);
    Ok(())
}


/// Copying the images of a document keeps the asset paths apart.
pub proof fn lemma_images_fold_well_named(
    m: AssetMapperView,
    srcs: Seq<Seq<char>>,
    base: Seq<char>,
    entries: Map<Seq<char>, Seq<u8>>,
)
    requires
        assets_well_named(m),
    ensures
        assets_well_named(images_fold(m, srcs, base, entries).0),
    decreases srcs.len(),
{
    if srcs.len() > 0 {
        lemma_images_fold_well_named(m, srcs.drop_last(), base, entries);
        let (m2, missing) = images_fold(m, srcs.drop_last(), base, entries);
        if missing is None {
            let src = srcs.last();
            let no_fragment = spec_remove_fragment(src);
            let absolute = spec_normalize_path(spec_join_path(base, no_fragment));
            if !is_remote_image(src) && spec_asset_link(m2.links, src, base) is None && entries.contains_key(absolute) {
                law_record_keeps_asset_paths_distinct(m2, absolute, seq![absolute, no_fragment], entries[absolute]);
            }
        }
    }
}

} // verus!

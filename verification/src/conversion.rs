//! A whole conversion, from the files of an EPUB to the chapters, README,
//! metadata and assets of the Markdown archive.
use vstd::prelude::*;
use crate::text::{chars_of, string_of};
use crate::textmap::TextMap;
use crate::model::{EpubPackage, ManifestItem, ChapterData, LogicalChapterSegment, NavPoint, OutputChapter, opt_view, out_views, seg_views};
use crate::package::{parse_package, spec_package_ok, package_matches, container_path, spec_package_error, package_error_is};
use crate::assets::{
    AssetMapper, AssetMapperView, entries_view, item_view, live_items_from, sorted_by_path, manifest_fold,
    spec_archive_path_for, spec_record, spec_unique_name, chapter_asset_link, trim_start_prefix, copy_bytes,
    assets_well_named, law_new_mapper_is_well_named, law_record_keeps_asset_paths_distinct, lemma_manifest_fold_well_named,
};
use crate::content::{
    chapter_title, spec_chapter_title, spec_xhtml_doc, image_sources, images_fold, ensure_referenced_images_are_available,
    convert_xhtml_to_markdown, conversion_failure, content_root, xhtml_error_is, lemma_images_fold_well_named,
};
use crate::naming::{chapter_file_name, spec_chapter_file_name, lemma_chapter_file_names_differ};
use crate::segments::{
    logical_chapter_segments, spec_logical_segments, spec_build_segments, max_depth, SplitRule, law_segment_file_names_distinct,
    is_selected, pick_name, names_of,
};
use crate::links::{ChapterLinkMap, map_string_view};
use crate::link_targets::{chapter_output_map, spec_chapter_output_map};
use crate::render::{Ctx, r_mixed};
use crate::cleanup::spec_cleanup;
use crate::chapters::{promote_navigation_targets_to_headings, spec_promote_navigation_targets, output_chapters_from_spines, spec_output_chapters, base_outputs};
use crate::book::{readme, spec_readme};
use crate::markdown::{metadata_json, spec_metadata_json};
use crate::xml::desc;
use crate::paths::spec_parent_dir;
use crate::ConversionError;

verus! {

broadcast use vstd::string::group_string_axioms;

/// Everything a conversion produces, stage by stage: the package, the
/// spine documents, the logical segments, the copied assets, the cover,
/// where each link of the book points, each document as Markdown, the
/// output chapters, the README and `metadata.json`.
pub struct ConvertedBook {
    pub package: EpubPackage,
    pub chapters: Vec<ChapterData>,
    pub segments: Vec<LogicalChapterSegment>,
    pub asset_mapper: AssetMapper,
    pub cover_asset_path: Option<String>,
    pub chapter_links: ChapterLinkMap,
    pub converted_spines: Vec<String>,
    pub output_chapters: Vec<OutputChapter>,
    pub readme: String,
    pub metadata_json: String,
    /// The assets once the manifest's images were copied.
    pub manifest_assets: Ghost<AssetMapperView>,
    /// The assets once the cover was copied too.
    pub cover_assets: Ghost<AssetMapperView>,
}

/// A spine document as read: the item, its bytes, its title and its
/// chapter file name (numbered from 1).
pub open spec fn chapter_data_ok(c: ChapterData, item: ManifestItem, index: nat, entries: Map<Seq<char>, Seq<u8>>) -> bool {
    &&& item_view(c.item) == item_view(item)
    &&& entries.contains_key(item.absolute_path@)
    &&& c.data@ == entries[item.absolute_path@]
    &&& opt_view(c.title) == spec_chapter_title(c.data@)
    &&& c.file_name@ == spec_chapter_file_name(index + 1, opt_view(c.title), item.href@)
}

pub open spec fn chapters_ok(cs: Seq<ChapterData>, spine: Seq<ManifestItem>, entries: Map<Seq<char>, Seq<u8>>) -> bool {
    &&& cs.len() == spine.len()
    &&& forall|i: int| 0 <= i < cs.len() ==> chapter_data_ok(#[trigger] cs[i], spine[i], i as nat, entries)
}

pub open spec fn empty_assets() -> AssetMapperView {
    AssetMapperView { links: Map::empty(), assets: Seq::empty(), used: Set::empty() }
}

/// The cover's asset path and the assets after it: an image already
/// copied keeps its path, one the book holds is copied, else no cover.
pub open spec fn spec_cover_copy(m: AssetMapperView, cover: Option<Seq<char>>, entries: Map<Seq<char>, Seq<u8>>) -> (Option<Seq<char>>, AssetMapperView) {
    match cover {
        None => (None, m),
        Some(path) => match spec_archive_path_for(m.links, path) {
            Some(existing) => (Some(existing), m),
            None => if entries.contains_key(path) {
                (
                    Some(trim_start_prefix(chapter_asset_link(spec_unique_name(path, m.used)), "../"@)),
                    spec_record(m, path, seq![path], entries[path]),
                )
            } else {
                (None, m)
            },
        },
    }
}

/// The assets once the images of the first `k` documents were made
/// available, and whether none was missing.
pub open spec fn chapter_images(m: AssetMapperView, cs: Seq<ChapterData>, entries: Map<Seq<char>, Seq<u8>>, k: int) -> (AssetMapperView, bool)
    decreases k,
{
    if k <= 0 || k > cs.len() {
        (m, true)
    } else {
        let (m1, ok) = chapter_images(m, cs, entries, k - 1);
        if !ok {
            (m1, false)
        } else {
            match spec_xhtml_doc(cs[k - 1].data@) {
                None => (m1, true),
                Some(n) => {
                    let (m2, missing) = images_fold(m1, image_sources(n, desc(n, 0)), spec_parent_dir(cs[k - 1].item.absolute_path@), entries);
                    (m2, missing is None)
                },
            }
        }
    }
}

/// A spine document as Markdown: its body rendered with the book's
/// assets and links, cleaned up, its navigation targets made headings.
pub open spec fn spec_chapter_markdown(c: ChapterData, assets: Map<Seq<char>, Seq<char>>, links: Map<Seq<char>, Seq<char>>, nav: Seq<NavPoint>) -> Seq<char> {
    let n = spec_xhtml_doc(c.data@)->0;
    let ctx = chapter_ctx(c, assets, links);
    spec_promote_navigation_targets(spec_cleanup(r_mixed(n, ctx, content_root(n)->0)), c.item.absolute_path@, nav)
}

/// The context a spine document is rendered in: its own path, the
/// assets' paths and the chapters' output files.
pub open spec fn chapter_ctx(c: ChapterData, assets: Map<Seq<char>, Seq<char>>, links: Map<Seq<char>, Seq<char>>) -> Ctx {
    Ctx { path: c.item.absolute_path@, assets, links }
}

/// What a successful conversion holds, stage by stage.
pub open spec fn converted_ok(b: ConvertedBook, ev: Map<Seq<char>, Seq<u8>>) -> bool {
    let nav = b.package.nav_points@;
    let segs = seg_views(b.segments@);
    &&& spec_package_ok(ev)
    &&& package_matches(b.package, ev)
    &&& chapters_ok(b.chapters@, b.package.spine@, ev)
    &&& segs == spec_logical_segments(b.chapters@, nav)
    &&& exists|order: Seq<(Seq<char>, Seq<char>, Seq<char>, Seq<char>)>|
        order.to_multiset() == live_items_from(b.package.manifest.pairs_view(), 0).to_multiset()
        && sorted_by_path(order)
        && b.manifest_assets@ == manifest_fold(empty_assets(), order, ev)
    &&& (opt_view(b.cover_asset_path), b.cover_assets@) == spec_cover_copy(b.manifest_assets@, opt_view(b.package.cover_image_path), ev)
    &&& chapter_images(b.cover_assets@, b.chapters@, ev, b.chapters@.len() as int) == (b.asset_mapper@, true)
    &&& map_string_view(b.chapter_links.epub_path_to_markdown@) == spec_chapter_output_map(b.chapters@, nav, segs)
    &&& b.converted_spines@.len() == b.chapters@.len()
    &&& forall|i: int| 0 <= i < b.chapters@.len() ==> !conversion_failure((#[trigger] b.chapters@[i]).data@, chapter_ctx(b.chapters@[i], b.asset_mapper@.links, b.chapter_links.view_map()))
        && b.converted_spines@[i]@ == spec_chapter_markdown(b.chapters@[i], b.asset_mapper@.links, b.chapter_links.view_map(), nav)
    &&& out_views(b.output_chapters@) == spec_output_chapters(
        b.chapters@, b.converted_spines@.map_values(|s: String| s@), segs, nav, b.chapter_links.epub_path_to_markdown@)
    &&& b.readme@ == spec_readme(b.package.title@, b.package.metadata, out_views(b.output_chapters@))
    &&& b.metadata_json@ == spec_metadata_json(b.package.title@, opt_view(b.cover_asset_path))
}

/// The assets of a book once the manifest's images, in the order of
/// their paths, and then the cover were copied.
pub open spec fn assets_before_documents(p: EpubPackage, ev: Map<Seq<char>, Seq<u8>>, m: AssetMapperView) -> bool {
    exists|order: Seq<(Seq<char>, Seq<char>, Seq<char>, Seq<char>)>|
        order.to_multiset() == live_items_from(p.manifest.pairs_view(), 0).to_multiset()
        && #[trigger] sorted_by_path(order)
        && m == spec_cover_copy(manifest_fold(empty_assets(), order, ev), opt_view(p.cover_image_path), ev).1
}

/// Document `k` is the first whose images are not all available: the
/// documents before it had theirs, and the first source of its own that
/// is missing gives the error.
pub open spec fn image_error_at(e: ConversionError, m: AssetMapperView, cs: Seq<ChapterData>, ev: Map<Seq<char>, Seq<u8>>, k: int) -> bool {
    &&& 0 <= k < cs.len()
    &&& chapter_images(m, cs, ev, k).1
    &&& spec_xhtml_doc(cs[k].data@) matches Some(n)
    &&& images_fold(chapter_images(m, cs, ev, k).0, image_sources(n, desc(n, 0)), spec_parent_dir(cs[k].item.absolute_path@), ev).1 matches Some(src)
    &&& e matches ConversionError::MalformedEpub(msg)
    &&& msg@ == "referenced image asset is missing or not declared: "@ + src
}

/// Document `k` is the first that cannot be converted in its rendering
/// context, and the error is the one it gives.
pub open spec fn document_error_at(
    e: ConversionError,
    cs: Seq<ChapterData>,
    assets: Map<Seq<char>, Seq<char>>,
    links: Map<Seq<char>, Seq<char>>,
    k: int,
) -> bool {
    &&& 0 <= k < cs.len()
    &&& conversion_failure(cs[k].data@, chapter_ctx(cs[k], assets, links))
    &&& forall|j: int| 0 <= j < k ==> !conversion_failure((#[trigger] cs[j]).data@, chapter_ctx(cs[j], assets, links))
    &&& xhtml_error_is(e, cs[k].data@, cs[k].item.absolute_path@)
}

/// Spine document `i` is the first the book lacks.
pub open spec fn first_missing_spine(p: EpubPackage, ev: Map<Seq<char>, Seq<u8>>, i: int) -> bool {
    &&& 0 <= i < p.spine@.len()
    &&& !ev.contains_key(p.spine@[i].absolute_path@)
    &&& forall|j: int| 0 <= j < i ==> ev.contains_key((#[trigger] p.spine@[j]).absolute_path@)
}

/// The error the conversion of a book whose package was read stops with,
/// by the first cause met: a spine document the book lacks, more
/// navigation entries than can be numbered, an image a document shows
/// that the book lacks, or a document that cannot be converted.
pub open spec fn conversion_error_is(e: ConversionError, p: EpubPackage, ev: Map<Seq<char>, Seq<u8>>) -> bool {
    if exists|i: int| 0 <= i < p.spine@.len() && !ev.contains_key((#[trigger] p.spine@[i]).absolute_path@) {
        exists|i: int| #[trigger] first_missing_spine(p, ev, i)
            && (e matches ConversionError::MalformedEpub(msg)
                && msg@ == "spine item missing content file: "@ + p.spine@[i].absolute_path@)
    } else if p.nav_points@.len() > usize::MAX - 3 {
        e matches ConversionError::Conversion(msg) && msg@ == "too many navigation entries"@
    } else {
        exists|cs: Seq<ChapterData>, m: AssetMapperView|
            #![trigger chapters_ok(cs, p.spine@, ev), assets_before_documents(p, ev, m)]
            chapters_ok(cs, p.spine@, ev) && assets_before_documents(p, ev, m) && if chapter_images(m, cs, ev, cs.len() as int).1 {
                let assets = chapter_images(m, cs, ev, cs.len() as int).0.links;
                let links = spec_chapter_output_map(cs, p.nav_points@, spec_logical_segments(cs, p.nav_points@));
                exists|k: int| #[trigger] document_error_at(e, cs, assets, links, k)
            } else {
                exists|k: int| #[trigger] image_error_at(e, m, cs, ev, k)
            }
    }
}

proof fn lemma_images_stay_missing(m: AssetMapperView, cs: Seq<ChapterData>, ev: Map<Seq<char>, Seq<u8>>, k: int, n: int)
    requires
        1 <= k <= n <= cs.len(),
        !chapter_images(m, cs, ev, k).1,
    ensures
        !chapter_images(m, cs, ev, n).1,
    decreases n - k,
{
    if k < n {
        lemma_images_stay_missing(m, cs, ev, k, n - 1);
    }
}

fn message_with(text: &str, detail: &str) -> (r: String)
    ensures
        r@ == text@ + detail@,
{
    let mut m = chars_of(text);
    crate::text::append_chars(&mut m, &chars_of(detail));
    string_of(&m)
}

/// The spine documents with their bytes, titles and file names, or the
/// first one the book lacks.
fn read_chapters(package: &EpubPackage, entries: &TextMap<Vec<u8>>) -> (r: Result<Vec<ChapterData>, ConversionError>)
    ensures
        match r {
            Ok(cs) => chapters_ok(cs@, package.spine@, entries_view(entries@)),
            Err(e) => exists|i: int| 0 <= i < package.spine@.len()
                && !entries_view(entries@).contains_key((#[trigger] package.spine@[i]).absolute_path@)
                && (forall|j: int| 0 <= j < i ==> entries_view(entries@).contains_key((#[trigger] package.spine@[j]).absolute_path@))
                && (e matches ConversionError::MalformedEpub(m)
                    && m@ == "spine item missing content file: "@ + package.spine@[i].absolute_path@),
        },
{
    let ghost ev = entries_view(entries@);
    let mut chapters: Vec<ChapterData> = Vec::new();
    let mut offset: usize = 0;
    while offset < package.spine.len()
        invariant
            offset <= package.spine@.len(),
            ev == entries_view(entries@),
            chapters@.len() == offset,
            forall|i: int| 0 <= i < offset ==> chapter_data_ok(#[trigger] chapters@[i], package.spine@[i], i as nat, ev),
        decreases package.spine@.len() - offset,
    {
        let item = &package.spine[offset];
        let data = match entries.get(item.absolute_path.as_str()) {
            Some(d) => copy_bytes(d),
            None => {
                assert(!ev.contains_key(package.spine@[offset as int].absolute_path@));
                assert forall|j: int| 0 <= j < offset implies ev.contains_key((#[trigger] package.spine@[j]).absolute_path@) by {
                    assert(chapter_data_ok(chapters@[j], package.spine@[j], j as nat, ev));
                }
                return Err(ConversionError::MalformedEpub(
                    message_with("spine item missing content file: ", item.absolute_path.as_str())));
            },
        };
        let title = chapter_title(data.as_slice());
        let file_name = match &title {
            Some(t) => chapter_file_name(offset + 1, Some(t.as_str()), item.href.as_str()),
            None => chapter_file_name(offset + 1, None, item.href.as_str()),
        };
        let c = ChapterData { item: crate::assets::clone_item(item), data, file_name, title };
        assert(chapter_data_ok(c, package.spine@[offset as int], offset as nat, ev));
        chapters.push(c);
        offset += 1;
    }
    Ok(chapters)
}

/// The book's images made available: the manifest's, then the cover,
/// then those the documents show; the cover's asset path; and the assets
/// after the first two steps.
fn gather_assets(package: &EpubPackage, chapters: &Vec<ChapterData>, entries: &TextMap<Vec<u8>>)
    -> (r: Result<(AssetMapper, Option<String>, Ghost<AssetMapperView>, Ghost<AssetMapperView>), ConversionError>)
    ensures
        match r {
            Ok((m, cover, manifest_assets, cover_assets)) => {
                &&& exists|order: Seq<(Seq<char>, Seq<char>, Seq<char>, Seq<char>)>|
                    order.to_multiset() == live_items_from(package.manifest.pairs_view(), 0).to_multiset()
                    && sorted_by_path(order)
                    && manifest_assets@ == manifest_fold(empty_assets(), order, entries_view(entries@))
                &&& (opt_view(cover), cover_assets@) == spec_cover_copy(manifest_assets@, opt_view(package.cover_image_path), entries_view(entries@))
                &&& chapter_images(cover_assets@, chapters@, entries_view(entries@), chapters@.len() as int) == (m@, true)
            },
            Err(e) => exists|m: AssetMapperView| #[trigger] assets_before_documents(*package, entries_view(entries@), m)
                && !chapter_images(m, chapters@, entries_view(entries@), chapters@.len() as int).1
                && exists|k: int| #[trigger] image_error_at(e, m, chapters@, entries_view(entries@), k),
        },
{
    let ghost ev = entries_view(entries@);
    let mut asset_mapper = AssetMapper::new();
    assert(asset_mapper@ == empty_assets());
    asset_mapper.copy_assets_from_manifest(package, entries);
    let ghost manifest_assets = asset_mapper@;
    let ghost order = choose|order: Seq<(Seq<char>, Seq<char>, Seq<char>, Seq<char>)>|
        order.to_multiset() == live_items_from(package.manifest.pairs_view(), 0).to_multiset()
        && sorted_by_path(order)
        && manifest_assets == manifest_fold(empty_assets(), order, ev);
    let cover_asset_path = match &package.cover_image_path {
        Some(path) => match asset_mapper.archive_asset_path_for_epub_path(path.as_str()) {
            Some(existing) => Some(existing),
            None => asset_mapper.copy_asset_at_path_if_present(path.as_str(), entries),
        },
        None => None,
    };
    let ghost cover_assets = asset_mapper@;
    assert((opt_view(cover_asset_path), cover_assets) == spec_cover_copy(manifest_assets, opt_view(package.cover_image_path), ev));
    assert(assets_before_documents(*package, ev, cover_assets));
    let mut i: usize = 0;
    while i < chapters.len()
        invariant
            i <= chapters@.len(),
            ev == entries_view(entries@),
            chapter_images(cover_assets, chapters@, ev, i as int) == (asset_mapper@, true),
            assets_before_documents(*package, ev, cover_assets),
        decreases chapters@.len() - i,
    {
        let chapter = &chapters[i];
        match ensure_referenced_images_are_available(chapter.data.as_slice(), chapter.item.absolute_path.as_str(), entries, &mut asset_mapper) {
            Ok(()) => {},
            Err(e) => {
                proof {
                    assert(!chapter_images(cover_assets, chapters@, ev, i + 1).1);
                    lemma_images_stay_missing(cover_assets, chapters@, ev, i + 1, chapters@.len() as int);
                    assert(image_error_at(e, cover_assets, chapters@, ev, i as int));
                }
                return Err(e);
            },
        }
        assert(chapter_images(cover_assets, chapters@, ev, i + 1) == (asset_mapper@, true));
        i += 1;
    }
    Ok((asset_mapper, cover_asset_path, Ghost(manifest_assets), Ghost(cover_assets)))
}

/// Each spine document as Markdown, or the first failure.
fn convert_chapters(chapters: &Vec<ChapterData>, asset_mapper: &AssetMapper, chapter_links: &ChapterLinkMap, nav_points: &Vec<NavPoint>)
    -> (r: Result<Vec<String>, ConversionError>)
    ensures
        match r {
            Ok(v) => v@.len() == chapters@.len()
                && forall|k: int| 0 <= k < chapters@.len() ==> !conversion_failure((#[trigger] chapters@[k]).data@, chapter_ctx(chapters@[k], asset_mapper@.links, chapter_links.view_map()))
                    && v@[k]@ == spec_chapter_markdown(chapters@[k], asset_mapper@.links, chapter_links.view_map(), nav_points@),
            Err(e) => exists|k: int| #[trigger] document_error_at(e, chapters@, asset_mapper@.links, chapter_links.view_map(), k),
        },
{
    let mut converted_spines: Vec<String> = Vec::new();
    let mut i: usize = 0;
    while i < chapters.len()
        invariant
            i <= chapters@.len(),
            converted_spines@.len() == i,
            forall|k: int| 0 <= k < i ==> !conversion_failure((#[trigger] chapters@[k]).data@, chapter_ctx(chapters@[k], asset_mapper@.links, chapter_links.view_map()))
                && converted_spines@[k]@ == spec_chapter_markdown(chapters@[k], asset_mapper@.links, chapter_links.view_map(), nav_points@),
        decreases chapters@.len() - i,
    {
        let chapter = &chapters[i];
        let markdown = match convert_xhtml_to_markdown(chapter.data.as_slice(), chapter.item.absolute_path.as_str(), asset_mapper, chapter_links) {
            Ok(md) => md,
            Err(e) => {
                assert(document_error_at(e, chapters@, asset_mapper@.links, chapter_links.view_map(), i as int));
                return Err(e);
            },
        };
        let markdown = promote_navigation_targets_to_headings(markdown, chapter.item.absolute_path.as_str(), nav_points.as_slice());
        converted_spines.push(markdown);
        i += 1;
    }
    Ok(converted_spines)
}

/// Converts a book, given its files by path.
#[verifier::rlimit(40)]
pub fn convert_epub_entries(entries: &TextMap<Vec<u8>>) -> (r: Result<ConvertedBook, ConversionError>)
    ensures
        !spec_package_ok(entries_view(entries@)) ==> r is Err,
        match r {
            Ok(b) => converted_ok(b, entries_view(entries@)),
            Err(e) => if spec_package_ok(entries_view(entries@)) {
                !(e is InvalidEpub) && exists|p: EpubPackage| #[trigger] package_matches(p, entries_view(entries@))
                    && conversion_error_is(e, p, entries_view(entries@))
            } else {
                (e is InvalidEpub <==> !entries@.contains_key(container_path()))
                    && package_error_is(e, spec_package_error(entries_view(entries@)).0, spec_package_error(entries_view(entries@)).1)
            },
        },
{
    let ghost ev = entries_view(entries@);
    let package = match parse_package(entries) {
        Ok(p) => p,
        Err(e) => return Err(e),
    };
    let chapters = match read_chapters(&package, entries) {
        Ok(c) => c,
        Err(e) => {
            proof {
                let i = choose|i: int| 0 <= i < package.spine@.len()
                    && !ev.contains_key((#[trigger] package.spine@[i]).absolute_path@)
                    && (forall|j: int| 0 <= j < i ==> ev.contains_key((#[trigger] package.spine@[j]).absolute_path@))
                    && (e matches ConversionError::MalformedEpub(m)
                        && m@ == "spine item missing content file: "@ + package.spine@[i].absolute_path@);
                assert(first_missing_spine(package, ev, i));
                assert(conversion_error_is(e, package, ev));
            }
            return Err(e);
        },
    };
    proof {
        assert forall|i: int| 0 <= i < package.spine@.len() implies ev.contains_key((#[trigger] package.spine@[i]).absolute_path@) by {
            assert(chapter_data_ok(chapters@[i], package.spine@[i], i as nat, ev));
        }
    }
    if package.nav_points.len() > usize::MAX - 3 {
        let e = ConversionError::Conversion(string_of(&chars_of("too many navigation entries")));
        assert(conversion_error_is(e, package, ev));
        return Err(e);
    }
    let segments = logical_chapter_segments(chapters.as_slice(), package.nav_points.as_slice());
    let (asset_mapper, cover_asset_path, manifest_assets, cover_assets) = match gather_assets(&package, &chapters, entries) {
        Ok(t) => t,
        Err(e) => {
            proof {
                let m = choose|m: AssetMapperView| #[trigger] assets_before_documents(package, ev, m)
                    && !chapter_images(m, chapters@, ev, chapters@.len() as int).1
                    && exists|k: int| #[trigger] image_error_at(e, m, chapters@, ev, k);
                assert(chapters_ok(chapters@, package.spine@, ev));
                assert(conversion_error_is(e, package, ev));
            }
            return Err(e);
        },
    };
    let chapter_links = ChapterLinkMap {
        epub_path_to_markdown: chapter_output_map(chapters.as_slice(), package.nav_points.as_slice(), &segments),
    };
    let converted_spines = match convert_chapters(&chapters, &asset_mapper, &chapter_links, &package.nav_points) {
        Ok(v) => v,
        Err(e) => {
            proof {
                let order = choose|order: Seq<(Seq<char>, Seq<char>, Seq<char>, Seq<char>)>|
                    order.to_multiset() == live_items_from(package.manifest.pairs_view(), 0).to_multiset()
                    && sorted_by_path(order)
                    && manifest_assets@ == manifest_fold(empty_assets(), order, ev);
                assert(assets_before_documents(package, ev, cover_assets@));
                assert(chapters_ok(chapters@, package.spine@, ev));
                let links = spec_chapter_output_map(chapters@, package.nav_points@, spec_logical_segments(chapters@, package.nav_points@));
                assert(chapter_links.view_map() == links);
                assert(chapter_images(cover_assets@, chapters@, ev, chapters@.len() as int) == (asset_mapper@, true));
                let k = choose|k: int| #[trigger] document_error_at(e, chapters@, asset_mapper@.links, chapter_links.view_map(), k);
                assert(document_error_at(e, chapters@, chapter_images(cover_assets@, chapters@, ev, chapters@.len() as int).0.links, links, k));
                assert(!(exists|i: int| 0 <= i < package.spine@.len() && !ev.contains_key((#[trigger] package.spine@[i]).absolute_path@)));
                assert(conversion_error_is(e, package, ev));
            }
            return Err(e);
        },
    };
    let output_chapters = output_chapters_from_spines(
        chapters.as_slice(),
        converted_spines.as_slice(),
        segments.as_slice(),
        package.nav_points.as_slice(),
        &chapter_links,
    );
    let readme_text = readme(&package, output_chapters.as_slice());
    let metadata = match &cover_asset_path {
        Some(p) => metadata_json(package.title.as_str(), Some(p.as_str())),
        None => metadata_json(package.title.as_str(), None),
    };
    Ok(ConvertedBook {
        package,
        chapters,
        segments,
        asset_mapper,
        cover_asset_path,
        chapter_links,
        converted_spines,
        output_chapters,
        readme: readme_text,
        metadata_json: metadata,
        manifest_assets,
        cover_assets,
    })
}


/// The chapters of a converted book never share a file name, so each is
/// its own entry of the archive; and no file name is empty.
#[verifier::rlimit(40)]
pub proof fn law_output_chapter_names_distinct(b: ConvertedBook, ev: Map<Seq<char>, Seq<u8>>)
    requires
        converted_ok(b, ev),
    ensures
        forall|i: int, j: int| 0 <= i < j < b.output_chapters@.len()
            ==> (#[trigger] b.output_chapters@[i]).file_name@ != (#[trigger] b.output_chapters@[j]).file_name@,
        forall|k: int| 0 <= k < b.output_chapters@.len() ==> (#[trigger] b.output_chapters@[k]).file_name@.len() > 0,
{
    let nav = b.package.nav_points@;
    let segs = seg_views(b.segments@);
    let cs = b.chapters@;
    let spines = b.converted_spines@.map_values(|s: String| s@);
    let outs = out_views(b.output_chapters@);
    let base = base_outputs(cs, spines, segs);
    assert(outs == spec_output_chapters(cs, spines, segs, nav, b.chapter_links.epub_path_to_markdown@));
    assert forall|k: int| 0 <= k < b.output_chapters@.len() implies (#[trigger] b.output_chapters@[k]).file_name@ == base[k].0 by {
        assert(outs[k] == crate::model::out_view(b.output_chapters@[k]));
    }
    if segs.len() > 0 {
        let md = max_depth(nav);
        law_segment_file_names_distinct(nav, cs, SplitRule::Conservative, md);
        law_segment_file_names_distinct(nav, cs, SplitRule::Aggressive, md);
        lemma_segment_names_nonempty(nav, cs, SplitRule::Conservative, md);
        lemma_segment_names_nonempty(nav, cs, SplitRule::Aggressive, md);
        assert(segs == spec_build_segments(nav, cs, SplitRule::Conservative, md)
            || segs == spec_build_segments(nav, cs, SplitRule::Aggressive, md));
        assert forall|i: int, j: int| 0 <= i < j < b.output_chapters@.len()
            implies (#[trigger] b.output_chapters@[i]).file_name@ != (#[trigger] b.output_chapters@[j]).file_name@ by {
            assert(base[i].0 == segs[i].file_name);
            assert(base[j].0 == segs[j].file_name);
        }
        assert forall|k: int| 0 <= k < b.output_chapters@.len() implies (#[trigger] b.output_chapters@[k]).file_name@.len() > 0 by {
            assert(base[k].0 == segs[k].file_name);
        }
    } else {
        assert forall|k: int| 0 <= k < b.output_chapters@.len() implies (#[trigger] b.output_chapters@[k]).file_name@.len() > 0 by {
            assert(chapter_data_ok(cs[k], b.package.spine@[k], k as nat, ev));
            assert(base[k].0 == cs[k].file_name@);
        }
        assert forall|i: int, j: int| 0 <= i < j < b.output_chapters@.len()
            implies (#[trigger] b.output_chapters@[i]).file_name@ != (#[trigger] b.output_chapters@[j]).file_name@ by {
            assert(chapter_data_ok(cs[i], b.package.spine@[i], i as nat, ev));
            assert(chapter_data_ok(cs[j], b.package.spine@[j], j as nat, ev));
            assert(base[i].0 == cs[i].file_name@);
            assert(base[j].0 == cs[j].file_name@);
            lemma_chapter_file_names_differ((i + 1) as nat, (j + 1) as nat,
                opt_view(cs[i].title), opt_view(cs[j].title),
                b.package.spine@[i].href@, b.package.spine@[j].href@);
        }
    }
}


proof fn lemma_chapter_images_well_named(m: AssetMapperView, cs: Seq<ChapterData>, ev: Map<Seq<char>, Seq<u8>>, k: int)
    requires
        assets_well_named(m),
    ensures
        assets_well_named(chapter_images(m, cs, ev, k).0),
    decreases k,
{
    if 0 < k <= cs.len() {
        lemma_chapter_images_well_named(m, cs, ev, k - 1);
        let (m1, ok) = chapter_images(m, cs, ev, k - 1);
        if ok {
            match spec_xhtml_doc(cs[k - 1].data@) {
                None => {},
                Some(n) => {
                    lemma_images_fold_well_named(m1, image_sources(n, desc(n, 0)), spec_parent_dir(cs[k - 1].item.absolute_path@), ev);
                },
            }
        }
    }
}

/// The assets of a converted book lie at distinct paths `assets/<name>`,
/// each name taken and none empty.
pub proof fn law_book_assets_well_named(b: ConvertedBook, ev: Map<Seq<char>, Seq<u8>>)
    requires
        converted_ok(b, ev),
    ensures
        assets_well_named(b.asset_mapper@),
{
    let order = choose|order: Seq<(Seq<char>, Seq<char>, Seq<char>, Seq<char>)>|
        order.to_multiset() == live_items_from(b.package.manifest.pairs_view(), 0).to_multiset()
        && sorted_by_path(order)
        && b.manifest_assets@ == manifest_fold(empty_assets(), order, ev);
    law_new_mapper_is_well_named();
    assert(empty_assets() == AssetMapperView { links: Map::empty(), assets: Seq::empty(), used: Set::empty() });
    lemma_manifest_fold_well_named(empty_assets(), order, ev);
    let m = b.manifest_assets@;
    match opt_view(b.package.cover_image_path) {
        None => {},
        Some(path) => match spec_archive_path_for(m.links, path) {
            Some(_) => {},
            None => if ev.contains_key(path) {
                law_record_keeps_asset_paths_distinct(m, path, seq![path], ev[path]);
            },
        },
    }
    lemma_chapter_images_well_named(b.cover_assets@, b.chapters@, ev, b.chapters@.len() as int);
}


/// No logical chapter has an empty file name.
proof fn lemma_segment_names_nonempty(
    nav: Seq<NavPoint>,
    chapters: Seq<ChapterData>,
    rule: SplitRule,
    max_depth: nat,
)
    ensures
        forall|k: int| 0 <= k < spec_build_segments(nav, chapters, rule, max_depth).len()
            ==> (#[trigger] spec_build_segments(nav, chapters, rule, max_depth)[k]).file_name.len() > 0,
    decreases nav.len(),
{
    if nav.len() > 0 {
        lemma_segment_names_nonempty(nav.drop_last(), chapters, rule, max_depth);
        let prev = spec_build_segments(nav.drop_last(), chapters, rule, max_depth);
        let all = spec_build_segments(nav, chapters, rule, max_depth);
        let p = nav.last();
        if is_selected(chapters, rule, max_depth, p) {
            let name = spec_chapter_file_name((prev.len() + 1) as nat, Some(p.title@), p.epub_path@);
            let picked = pick_name(name, names_of(prev));
            assert(picked.len() > 0);
            assert forall|k: int| 0 <= k < all.len() implies (#[trigger] all[k]).file_name.len() > 0 by {
                if k < prev.len() {
                    assert(all[k] == prev[k]);
                }
            }
        }
    }
}


} // verus!

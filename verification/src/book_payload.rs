//! A Markdown book as the reader opens it: its chapters in the order of
//! the README's contents, its assets as data URLs, and its cover.
use vstd::prelude::*;
use crate::text::{strings_view, chars_of, string_of, append_chars, str_eq, seq_lt, chars_lt, lemma_seq_lt_total, lemma_seq_lt_transitive};
use vstd::utf8::{valid_utf8, decode_utf8};
use crate::reader_text::{
    readme_chapter_links, spec_readme_chapter_links, opt_chars, spec_normalize_zip_path,
    spec_reader_chapter_title, spec_title_from_readme,
};
use crate::assets::{contains_seq, has_prefix, has_suffix, contains_str, ends_with_str};
use crate::archive::RawEntry;
use crate::paths::{spec_file_stem, spec_file_name};
use crate::library::LibraryBook;
use crate::reader_text::{spec_choose_cover, spec_is_image_path};

verus! {

broadcast use vstd::string::group_string_axioms;

/// The README's chapter links: title and path.
pub type TocView = Seq<(Seq<char>, Seq<char>)>;

/// The first position of `path` among the README's chapter links.
pub open spec fn toc_position(toc: TocView, path: Seq<char>) -> Option<nat>
    decreases toc.len(),
{
    if toc.len() == 0 {
        None
    } else {
        match toc_position(toc.drop_last(), path) {
            Some(i) => Some(i),
            None => if toc.last().1 == path { Some((toc.len() - 1) as nat) } else { None },
        }
    }
}

/// Whether the chapter at `a` comes strictly before the one at `b`:
/// linked chapters in the README's order, then the others by path.
pub open spec fn chapter_before(toc: TocView, a: Seq<char>, b: Seq<char>) -> bool {
    match (toc_position(toc, a), toc_position(toc, b)) {
        (Some(i), Some(j)) => i < j,
        (Some(_), None) => true,
        (None, Some(_)) => false,
        (None, None) => seq_lt(a, b),
    }
}

/// `order` lists the positions of `paths` once each, sorted by
/// `chapter_before`, ties in their first order.
pub open spec fn is_stable_order(toc: TocView, paths: Seq<Seq<char>>, order: Seq<int>) -> bool {
    &&& order.len() == paths.len()
    &&& forall|k: int| 0 <= k < order.len() ==> 0 <= #[trigger] order[k] < paths.len()
    &&& forall|k: int, l: int| 0 <= k < l < order.len() ==> order[k] != order[l]
    &&& forall|k: int, l: int| 0 <= k < l < order.len() ==> !chapter_before(toc, paths[order[l]], paths[order[k]])
    &&& forall|k: int, l: int| 0 <= k < l < order.len() && !chapter_before(toc, paths[order[k]], paths[order[l]])
        ==> order[k] < order[l]
}

proof fn lemma_before_facts(toc: TocView, a: Seq<char>, b: Seq<char>, c: Seq<char>)
    ensures
        !chapter_before(toc, a, a),
        chapter_before(toc, a, b) ==> !chapter_before(toc, b, a),
        chapter_before(toc, a, b) && !chapter_before(toc, c, b) ==> chapter_before(toc, a, c),
        !chapter_before(toc, a, b) && !chapter_before(toc, b, c) ==> !chapter_before(toc, a, c),
{
    lemma_seq_lt_total(a, b);
    lemma_seq_lt_total(b, c);
    lemma_seq_lt_total(a, c);
    lemma_seq_lt_total(a, a);
    if seq_lt(a, b) && seq_lt(b, c) {
        lemma_seq_lt_transitive(a, b, c);
    }
    if seq_lt(c, b) && seq_lt(b, a) {
        lemma_seq_lt_transitive(c, b, a);
    }
}

fn toc_position_exec(toc: &Vec<(String, String)>, path: &str) -> (r: Option<usize>)
    ensures
        match r {
            Some(i) => toc_position(toc@.map_values(|e: (String, String)| (e.0@, e.1@)), path@) == Some(i as nat),
            None => toc_position(toc@.map_values(|e: (String, String)| (e.0@, e.1@)), path@) is None,
        },
{
    let ghost tv = toc@.map_values(|e: (String, String)| (e.0@, e.1@));
    let mut k: usize = 0;
    assert(tv.take(0) =~= Seq::<(Seq<char>, Seq<char>)>::empty());
    while k < toc.len()
        invariant
            k <= toc@.len(),
            tv == toc@.map_values(|e: (String, String)| (e.0@, e.1@)),
            toc_position(tv.take(k as int), path@) is None,
        decreases toc@.len() - k,
    {
        let ghost t = tv.take(k + 1);
        assert(t.drop_last() =~= tv.take(k as int));
        assert(t.last() == tv[k as int]);
        if str_eq(toc[k].1.as_str(), path) {
            proof { lemma_toc_position_prefix(tv, k as int + 1, path@); }
            return Some(k);
        }
        k += 1;
    }
    assert(tv.take(toc@.len() as int) =~= tv);
    None
}

proof fn lemma_toc_position_prefix(toc: TocView, k: int, path: Seq<char>)
    requires
        0 <= k <= toc.len(),
        toc_position(toc.take(k), path) is Some,
    ensures
        toc_position(toc, path) == toc_position(toc.take(k), path),
    decreases toc.len() - k,
{
    if k < toc.len() {
        assert(toc.take(k + 1).drop_last() =~= toc.take(k));
        lemma_toc_position_prefix(toc, k + 1, path);
    } else {
        assert(toc.take(k) =~= toc);
    }
}

/// Whether `a` comes strictly before `b`, given their positions.
fn before_exec(pa: Option<usize>, a: &str, pb: Option<usize>, b: &str) -> (r: bool)
    ensures
        r == match (pa, pb) {
            (Some(i), Some(j)) => i < j,
            (Some(_), None) => true,
            (None, Some(_)) => false,
            (None, None) => seq_lt(a@, b@),
        },
{
    match (pa, pb) {
        (Some(i), Some(j)) => i < j,
        (Some(_), None) => true,
        (None, Some(_)) => false,
        (None, None) => chars_lt(&chars_of(a), &chars_of(b)),
    }
}

pub open spec fn toc_view(toc: Seq<(String, String)>) -> TocView {
    toc.map_values(|e: (String, String)| (e.0@, e.1@))
}

pub open spec fn usize_ints(v: Seq<usize>) -> Seq<int> {
    v.map_values(|x: usize| x as int)
}

/// The order in which chapters at `paths` are read: those the README
/// links in its order, then the others by path, ties kept as they came.
pub fn stable_order(paths: &Vec<String>, toc: &Vec<(String, String)>) -> (r: Vec<usize>)
    ensures
        is_stable_order(toc_view(toc@), strings_view(paths@), usize_ints(r@)),
{
    let ghost tv = toc_view(toc@);
    let ghost pv = strings_view(paths@);
    let mut positions: Vec<Option<usize>> = Vec::new();
    let mut i: usize = 0;
    while i < paths.len()
        invariant
            i <= paths@.len(),
            tv == toc_view(toc@),
            pv == strings_view(paths@),
            positions@.len() == i,
            forall|q: int| 0 <= q < i ==> match #[trigger] positions@[q] {
                Some(p) => toc_position(tv, pv[q]) == Some(p as nat),
                None => toc_position(tv, pv[q]) is None,
            },
        decreases paths@.len() - i,
    {
        positions.push(toc_position_exec(toc, paths[i].as_str()));
        i += 1;
    }
    let mut order: Vec<usize> = Vec::new();
    let mut n: usize = 0;
    while n < paths.len()
        invariant
            n <= paths@.len(),
            tv == toc_view(toc@),
            pv == strings_view(paths@),
            positions@.len() == paths@.len(),
            forall|q: int| 0 <= q < paths@.len() ==> match #[trigger] positions@[q] {
                Some(p) => toc_position(tv, pv[q]) == Some(p as nat),
                None => toc_position(tv, pv[q]) is None,
            },
            order@.len() == n,
            forall|k: int| 0 <= k < n ==> #[trigger] order@[k] < n,
            forall|k: int, l: int| 0 <= k < l < n ==> order@[k] != order@[l],
            forall|k: int, l: int| 0 <= k < l < n ==> !chapter_before(tv, pv[order@[l] as int], pv[order@[k] as int]),
            forall|k: int, l: int| 0 <= k < l < n && !chapter_before(tv, pv[order@[k] as int], pv[order@[l] as int])
                ==> order@[k] < order@[l],
        decreases paths@.len() - n,
    {
        let mut pos: usize = 0;
        let mut found = false;
        while pos < order.len() && !found
            invariant
                pos <= order@.len() == n,
                n < paths@.len(),
                positions@.len() == paths@.len(),
                forall|k: int| 0 <= k < n ==> #[trigger] order@[k] < n,
                forall|q: int| 0 <= q < paths@.len() ==> match #[trigger] positions@[q] {
                    Some(p) => toc_position(tv, pv[q]) == Some(p as nat),
                    None => toc_position(tv, pv[q]) is None,
                },
                pv == strings_view(paths@),
                !found ==> forall|k: int| 0 <= k < pos ==> !chapter_before(tv, pv[n as int], #[trigger] pv[order@[k] as int]),
                found ==> pos > 0 && (forall|k: int| 0 <= k < pos - 1 ==> !chapter_before(tv, pv[n as int], #[trigger] pv[order@[k] as int]))
                    && chapter_before(tv, pv[n as int], pv[order@[pos - 1] as int]),
            decreases order@.len() - pos + (if found { 0int } else { 1int }),
        {
            let j = order[pos];
            assert(pv[n as int] == paths@[n as int]@);
            assert(pv[j as int] == paths@[j as int]@);
            if before_exec(positions[n], paths[n].as_str(), positions[j], paths[j].as_str()) {
                found = true;
            }
            pos += 1;
        }
        let at = if found { pos - 1 } else { pos };
        let ghost old_order = usize_ints(order@);
        proof {
            assert forall|k: int| at <= k < n implies chapter_before(tv, pv[n as int], #[trigger] pv[order@[k] as int]) by {
                if k > at {
                    lemma_before_facts(tv, pv[n as int], pv[order@[at as int] as int], pv[order@[k] as int]);
                }
            }
        }
        let ghost before = order@;
        order.insert(at, n);
        proof {
            assert forall|k: int| 0 <= k < n + 1 implies #[trigger] order@[k] < n + 1 by {
                if k < at {
                    assert(order@[k] == before[k]);
                } else if k > at {
                    assert(order@[k] == before[k - 1]);
                }
            }
            assert forall|k: int, l: int| 0 <= k < l < n + 1 implies order@[k] != order@[l] by {
                if k < at && l < at {
                    assert(order@[k] == before[k] && order@[l] == before[l]);
                } else if k < at && l == at {
                    assert(order@[k] == before[k]);
                } else if k < at {
                    assert(order@[k] == before[k] && order@[l] == before[l - 1]);
                } else if k == at {
                    assert(order@[l] == before[l - 1]);
                } else {
                    assert(order@[k] == before[k - 1] && order@[l] == before[l - 1]);
                }
            }
            assert forall|k: int, l: int| 0 <= k < l < n + 1 implies !chapter_before(tv, pv[order@[l] as int], pv[order@[k] as int]) by {
                if k < at && l < at {
                    assert(order@[k] == before[k] && order@[l] == before[l]);
                } else if k < at && l == at {
                    assert(order@[k] == before[k]);
                } else if k < at {
                    assert(order@[k] == before[k] && order@[l] == before[l - 1]);
                } else if k == at {
                    assert(order@[l] == before[l - 1]);
                    lemma_before_facts(tv, pv[n as int], pv[before[l - 1] as int], pv[n as int]);
                } else {
                    assert(order@[k] == before[k - 1] && order@[l] == before[l - 1]);
                }
            }
            assert forall|k: int, l: int| 0 <= k < l < n + 1 && !chapter_before(tv, pv[order@[k] as int], pv[order@[l] as int])
                implies order@[k] < order@[l] by {
                if k < at && l < at {
                    assert(order@[k] == before[k] && order@[l] == before[l]);
                } else if k < at && l == at {
                    assert(order@[k] == before[k]);
                } else if k < at {
                    assert(order@[k] == before[k] && order@[l] == before[l - 1]);
                } else if k == at {
                    assert(order@[l] == before[l - 1]);
                } else {
                    assert(order@[k] == before[k - 1] && order@[l] == before[l - 1]);
                }
            }
        }
        n += 1;
    }
    proof {
        let ov = usize_ints(order@);
        assert forall|k: int| 0 <= k < ov.len() implies 0 <= #[trigger] ov[k] < pv.len() by {
            assert(ov[k] == order@[k] as int);
        }
        assert forall|k: int, l: int| 0 <= k < l < ov.len() implies ov[k] != ov[l] by {
            assert(ov[k] == order@[k] as int && ov[l] == order@[l] as int);
        }
        assert forall|k: int, l: int| 0 <= k < l < ov.len() implies !chapter_before(tv, pv[ov[l]], pv[ov[k]]) by {
            assert(ov[k] == order@[k] as int && ov[l] == order@[l] as int);
        }
        assert forall|k: int, l: int| 0 <= k < l < ov.len() && !chapter_before(tv, pv[ov[k]], pv[ov[l]])
            implies ov[k] < ov[l] by {
            assert(ov[k] == order@[k] as int && ov[l] == order@[l] as int);
        }
    }
    order
}


/// A chapter of an opened book: its path in the archive, its title and
/// its Markdown.
pub struct BookChapter {
    pub path: String,
    pub title: String,
    pub markdown: String,
}

pub open spec fn chapter_view(c: BookChapter) -> (Seq<char>, Seq<char>, Seq<char>) {
    (c.path@, c.title@, c.markdown@)
}

pub open spec fn chapter_views(v: Seq<BookChapter>) -> Seq<(Seq<char>, Seq<char>, Seq<char>)> {
    v.map_values(|c: BookChapter| chapter_view(c))
}

/// A chapter with the title the README gives it, if it links it.
pub open spec fn retitled(toc: TocView, c: (Seq<char>, Seq<char>, Seq<char>)) -> (Seq<char>, Seq<char>, Seq<char>) {
    match toc_position(toc, c.0) {
        Some(i) => (c.0, toc[i as int].0, c.2),
        None => c,
    }
}

proof fn lemma_toc_position_bound(toc: TocView, path: Seq<char>)
    ensures
        toc_position(toc, path) matches Some(i) ==> i < toc.len() && toc[i as int].1 == path,
    decreases toc.len(),
{
    if toc.len() > 0 {
        lemma_toc_position_bound(toc.drop_last(), path);
    }
}

/// `after` is `before` in the stable order `order`, each chapter with
/// the README's title for it.
pub open spec fn chapters_reordered(
    toc: TocView,
    before: Seq<(Seq<char>, Seq<char>, Seq<char>)>,
    after: Seq<(Seq<char>, Seq<char>, Seq<char>)>,
    order: Seq<int>,
) -> bool {
    &&& is_stable_order(toc, before.map_values(|c: (Seq<char>, Seq<char>, Seq<char>)| c.0), order)
    &&& after.len() == before.len()
    &&& forall|k: int| 0 <= k < order.len() ==> #[trigger] after[k] == retitled(toc, before[order[k]])
}

/// `after` is `before` in the stable order `order`.
pub open spec fn paths_reordered(toc: TocView, before: Seq<Seq<char>>, after: Seq<Seq<char>>, order: Seq<int>) -> bool {
    &&& is_stable_order(toc, before, order)
    &&& after.len() == before.len()
    &&& forall|k: int| 0 <= k < order.len() ==> #[trigger] after[k] == before[order[k]]
}

/// Puts the chapters in the README's order and gives them its titles;
/// chapters it does not link follow by path; ties keep their order.
pub fn order_chapters_from_readme(chapters: &mut Vec<BookChapter>, readme: &str)
    ensures
        final(chapters)@.len() == old(chapters)@.len(),
        exists|order: Seq<int>| #[trigger] chapters_reordered(spec_readme_chapter_links(readme@), chapter_views(old(chapters)@), chapter_views(final(chapters)@), order),
{
    let toc = readme_chapter_links(readme);
    let ghost tv = toc_view(toc@);
    let mut paths: Vec<String> = Vec::new();
    let mut i: usize = 0;
    while i < chapters.len()
        invariant
            i <= chapters@.len(),
            paths@.len() == i,
            forall|q: int| 0 <= q < i ==> (#[trigger] paths@[q])@ == chapters@[q].path@,
        decreases chapters@.len() - i,
    {
        paths.push(chapters[i].path.clone());
        i += 1;
    }
    let ghost pv = strings_view(paths@);
    assert(pv =~= chapter_views(chapters@).map_values(|c: (Seq<char>, Seq<char>, Seq<char>)| c.0));
    let order = stable_order(&paths, &toc);
    let mut sorted: Vec<BookChapter> = Vec::new();
    let mut k: usize = 0;
    while k < order.len()
        invariant
            k <= order@.len() == chapters@.len(),
            tv == toc_view(toc@),
            is_stable_order(tv, pv, usize_ints(order@)),
            pv == chapter_views(chapters@).map_values(|c: (Seq<char>, Seq<char>, Seq<char>)| c.0),
            sorted@.len() == k,
            forall|q: int| 0 <= q < k ==> #[trigger] chapter_view(sorted@[q]) == retitled(tv, chapter_view(chapters@[order@[q] as int])),
        decreases order@.len() - k,
    {
        assert(usize_ints(order@)[k as int] == order@[k as int] as int);
        let c = &chapters[order[k]];
        proof { lemma_toc_position_bound(tv, c.path@); }
        let title = match toc_position_exec(&toc, c.path.as_str()) {
            Some(t) => {
                assert(tv[t as int] == (toc@[t as int].0@, toc@[t as int].1@));
                toc[t].0.clone()
            },
            None => c.title.clone(),
        };
        let chapter = BookChapter { path: c.path.clone(), title, markdown: c.markdown.clone() };
        sorted.push(chapter);
        k += 1;
    }
    let ghost old_chapters = chapters@;
    *chapters = sorted;
    proof {
        let ov = usize_ints(order@);
        assert forall|q: int| 0 <= q < ov.len() implies #[trigger] chapter_view(chapters@[q])
            == retitled(tv, chapter_view(old_chapters[ov[q]])) by {
            assert(ov[q] == order@[q] as int);
        }
        assert(chapters_reordered(tv, chapter_views(old_chapters), chapter_views(chapters@), ov));
    }
}

/// Puts chapter paths in the README's order; the others follow by path.
pub fn order_chapter_paths_from_readme(chapter_paths: &mut Vec<String>, readme: &str)
    ensures
        final(chapter_paths)@.len() == old(chapter_paths)@.len(),
        exists|order: Seq<int>| #[trigger] paths_reordered(spec_readme_chapter_links(readme@), strings_view(old(chapter_paths)@), strings_view(final(chapter_paths)@), order),
{
    let toc = readme_chapter_links(readme);
    let order = stable_order(chapter_paths, &toc);
    let ghost pv = strings_view(chapter_paths@);
    let mut sorted: Vec<String> = Vec::new();
    let mut k: usize = 0;
    while k < order.len()
        invariant
            k <= order@.len() == chapter_paths@.len(),
            is_stable_order(toc_view(toc@), pv, usize_ints(order@)),
            sorted@.len() == k,
            forall|q: int| 0 <= q < k ==> (#[trigger] sorted@[q])@ == chapter_paths@[order@[q] as int]@,
        decreases order@.len() - k,
    {
        assert(usize_ints(order@)[k as int] == order@[k as int] as int);
        sorted.push(chapter_paths[order[k]].clone());
        k += 1;
    }
    let ghost old_paths = chapter_paths@;
    *chapter_paths = sorted;
    proof {
        let ov = usize_ints(order@);
        assert forall|q: int| 0 <= q < ov.len() implies #[trigger] strings_view(chapter_paths@)[q] == strings_view(old_paths)[ov[q]] by {
            assert(ov[q] == order@[q] as int);
        }
        assert(paths_reordered(toc_view(toc@), strings_view(old_paths), strings_view(chapter_paths@), ov));
    }
}


/// What `mime_guess::from_path(path).first_or_octet_stream()` gives, as
/// text: the first MIME type known for the path's extension.
pub uninterp spec fn mime_for_path(path: Seq<char>) -> Seq<char>;

/// `mime_guess::from_path` then `MimeGuess::first_or_octet_stream`,
/// written out.  The table of types is the crate's; the result is named.
#[verifier::external_body]
fn mime_type_for(path: &str) -> (r: String)
    ensures
        r@ == mime_for_path(path@),
{
    mime_guess::from_path(path).first_or_octet_stream().to_string()
}

/// The character of the standard Base64 alphabet for a six-bit value.
pub open spec fn base64_char(v: nat) -> char {
    if v < 26 {
        ((65 + v) as u32) as char
    } else if v < 52 {
        ((97 + v - 26) as u32) as char
    } else if v < 62 {
        ((48 + v - 52) as u32) as char
    } else if v == 62 {
        '+'
    } else {
        '/'
    }
}

/// Standard Base64 with padding (RFC 4648, section 4): each three bytes
/// as four characters, a last one or two bytes padded with `=`.
pub open spec fn base64_standard(bytes: Seq<u8>) -> Seq<char>
    decreases bytes.len(),
{
    if bytes.len() == 0 {
        Seq::empty()
    } else if bytes.len() == 1 {
        let a = bytes[0] as nat;
        seq![base64_char(a / 4), base64_char((a % 4) * 16), '=', '=']
    } else if bytes.len() == 2 {
        let (a, b) = (bytes[0] as nat, bytes[1] as nat);
        seq![base64_char(a / 4), base64_char((a % 4) * 16 + b / 16), base64_char((b % 16) * 4), '=']
    } else {
        let (a, b, c) = (bytes[0] as nat, bytes[1] as nat, bytes[2] as nat);
        seq![base64_char(a / 4), base64_char((a % 4) * 16 + b / 16), base64_char((b % 16) * 4 + c / 64), base64_char(c % 64)]
            + base64_standard(bytes.skip(3))
    }
}

/// `Engine::encode` of `base64::engine::general_purpose::STANDARD`: the
/// standard alphabet with padding, as the crate documents it.
#[verifier::external_body]
fn base64_encode(bytes: &[u8]) -> (r: String)
    ensures
        r@ == base64_standard(bytes@),
{
    base64::Engine::encode(&base64::engine::general_purpose::STANDARD, bytes)
}

/// A `data:` URL with the asset's MIME type and its bytes in Base64.
pub open spec fn spec_data_url(path: Seq<char>, bytes: Seq<u8>) -> Seq<char> {
    "data:"@ + mime_for_path(path) + ";base64,"@ + base64_standard(bytes)
}

pub fn asset_data_url(path: &str, bytes: &[u8]) -> (r: String)
    ensures
        r@ == spec_data_url(path@, bytes@),
{
    let mut out = chars_of("data:");
    append_chars(&mut out, &chars_of(mime_type_for(path).as_str()));
    append_chars(&mut out, &chars_of(";base64,"));
    append_chars(&mut out, &chars_of(base64_encode(bytes).as_str()));
    string_of(&out)
}

/// An asset of an opened book: its path and its data URL.
pub struct BookAsset {
    pub path: String,
    pub data_url: String,
}

pub open spec fn asset_views(v: Seq<BookAsset>) -> Seq<(Seq<char>, Seq<char>)> {
    v.map_values(|a: BookAsset| (a.path@, a.data_url@))
}

/// The data URL of the first asset at `path`.
pub open spec fn asset_url_at(assets: Seq<(Seq<char>, Seq<char>)>, path: Seq<char>) -> Option<Seq<char>>
    decreases assets.len(),
{
    if assets.len() == 0 {
        None
    } else if assets[0].0 == path {
        Some(assets[0].1)
    } else {
        asset_url_at(assets.drop_first(), path)
    }
}

/// The cover image of an opened book: the data URL of the asset that
/// the reader chooses as cover.
pub open spec fn spec_cover_from_assets(assets: Seq<(Seq<char>, Seq<char>)>, metadata_path: Option<Seq<char>>) -> Option<Seq<char>> {
    match crate::reader_text::spec_choose_cover(assets.map_values(|a: (Seq<char>, Seq<char>)| a.0), metadata_path) {
        Some(c) => asset_url_at(assets, c),
        None => None,
    }
}

pub fn cover_image_from_assets(assets: &Vec<BookAsset>, metadata_path: Option<&str>) -> (r: Option<String>)
    ensures
        opt_chars(r) == spec_cover_from_assets(asset_views(assets@), match metadata_path { Some(p) => Some(p@), None => None }),
{
    let ghost av = asset_views(assets@);
    let mut paths: Vec<String> = Vec::new();
    let mut i: usize = 0;
    while i < assets.len()
        invariant
            i <= assets@.len(),
            paths@.len() == i,
            forall|q: int| 0 <= q < i ==> (#[trigger] paths@[q])@ == assets@[q].path@,
        decreases assets@.len() - i,
    {
        paths.push(assets[i].path.clone());
        i += 1;
    }
    assert(strings_view(paths@) =~= av.map_values(|a: (Seq<char>, Seq<char>)| a.0));
    let cover = match crate::reader_text::choose_cover_asset_path(paths.as_slice(), metadata_path) {
        Some(c) => c,
        None => return None,
    };
    let mut k: usize = 0;
    assert(av.skip(0) =~= av);
    while k < assets.len()
        invariant
            k <= assets@.len(),
            av == asset_views(assets@),
            crate::reader_text::spec_choose_cover(av.map_values(|a: (Seq<char>, Seq<char>)| a.0),
                match metadata_path { Some(p) => Some(p@), None => None }) == Some(cover@),
            asset_url_at(av.skip(k as int), cover@) == asset_url_at(av, cover@),
        decreases assets@.len() - k,
    {
        assert(av.skip(k as int)[0] == (assets@[k as int].path@, assets@[k as int].data_url@));
        if str_eq(assets[k].path.as_str(), cover.as_str()) {
            return Some(assets[k].data_url.clone());
        }
        assert(av.skip(k as int).drop_first() =~= av.skip(k + 1));
        k += 1;
    }
    assert(av.skip(k as int) =~= Seq::<(Seq<char>, Seq<char>)>::empty());
    None
}


/// What an entry of a Markdown book archive is to the reader.
#[derive(PartialEq, Eq, Structural, Clone, Copy)]
pub enum EntryKind {
    Skipped,
    Readme,
    Metadata,
    Style,
    Chapter,
    Asset,
}

/// The kind of the entry at `path` (normalised): empty paths and paths
/// that climb out with `../` are skipped.
pub open spec fn entry_kind(path: Seq<char>) -> EntryKind {
    if path.len() == 0 || contains_seq(path, "../"@) {
        EntryKind::Skipped
    } else if path == "README.md"@ {
        EntryKind::Readme
    } else if path == "metadata.json"@ {
        EntryKind::Metadata
    } else if path == "style.css"@ {
        EntryKind::Style
    } else if has_prefix(path, "chapters/"@) && has_suffix(path, ".md"@) {
        EntryKind::Chapter
    } else if has_prefix(path, "assets/"@) {
        EntryKind::Asset
    } else {
        EntryKind::Skipped
    }
}

fn starts_with_str(v: &Vec<char>, p: &str) -> (r: bool)
    ensures
        r == has_prefix(v@, p@),
{
    crate::text::starts_with_chars(v, &chars_of(p))
}

pub fn kind_of_entry(path: &str) -> (r: EntryKind)
    ensures
        r == entry_kind(path@),
{
    proof {
        reveal_strlit("../");
        reveal_strlit("README.md");
        reveal_strlit("metadata.json");
        reveal_strlit("style.css");
        reveal_strlit("chapters/");
        reveal_strlit(".md");
        reveal_strlit("assets/");
    }
    let v = chars_of(path);
    if v.len() == 0 || contains_str(&v, "../") {
        EntryKind::Skipped
    } else if str_eq(path, "README.md") {
        EntryKind::Readme
    } else if str_eq(path, "metadata.json") {
        EntryKind::Metadata
    } else if str_eq(path, "style.css") {
        EntryKind::Style
    } else if starts_with_str(&v, "chapters/") && ends_with_str(&v, ".md") {
        EntryKind::Chapter
    } else if starts_with_str(&v, "assets/") {
        EntryKind::Asset
    } else {
        EntryKind::Skipped
    }
}

/// What the reader has gathered from the entries read so far.
pub struct ScanView {
    pub readme: Seq<char>,
    pub style: Seq<char>,
    pub chapters: Seq<(Seq<char>, Seq<char>, Seq<char>)>,
    pub assets: Seq<(Seq<char>, Seq<u8>)>,
}

/// One entry: a text entry must be readable UTF-8 and an asset
/// readable, else the book cannot be opened.
pub open spec fn payload_step(s: ScanView, e: RawEntry) -> Option<ScanView> {
    if e.is_dir {
        Some(s)
    } else {
        let path = spec_normalize_zip_path(e.name@);
        let kind = entry_kind(path);
        if kind == EntryKind::Skipped {
            Some(s)
        } else {
            match e.bytes {
                None => None,
                Some(b) => if kind == EntryKind::Asset {
                    Some(ScanView { assets: s.assets.push((path, b@)), ..s })
                } else if !valid_utf8(b@) {
                    None
                } else {
                    let text = decode_utf8(b@);
                    if kind == EntryKind::Readme {
                        Some(ScanView { readme: text, ..s })
                    } else if kind == EntryKind::Style {
                        Some(ScanView { style: text, ..s })
                    } else if kind == EntryKind::Chapter {
                        Some(ScanView { chapters: s.chapters.push((path, spec_reader_chapter_title(text, path), text)), ..s })
                    } else {
                        Some(s)
                    }
                },
            }
        }
    }
}

pub open spec fn empty_scan() -> ScanView {
    ScanView { readme: Seq::empty(), style: Seq::empty(), chapters: Seq::empty(), assets: Seq::empty() }
}

pub open spec fn payload_scan(entries: Seq<RawEntry>, k: int) -> Option<ScanView>
    decreases k,
{
    if k <= 0 || k > entries.len() {
        Some(empty_scan())
    } else {
        match payload_scan(entries, k - 1) {
            None => None,
            Some(s) => payload_step(s, entries[k - 1]),
        }
    }
}

/// `after` holds the assets of `before` sorted by path (ties kept), each
/// as a data URL.
pub open spec fn assets_sorted(before: Seq<(Seq<char>, Seq<u8>)>, after: Seq<(Seq<char>, Seq<char>)>, order: Seq<int>) -> bool {
    &&& is_stable_order(Seq::empty(), before.map_values(|a: (Seq<char>, Seq<u8>)| a.0), order)
    &&& after.len() == before.len()
    &&& forall|k: int| 0 <= k < order.len() ==> #[trigger] after[k]
        == (before[order[k]].0, spec_data_url(before[order[k]].0, before[order[k]].1))
}

/// The title of an opened book: the README's, else the archive's file
/// stem, else a default.
pub open spec fn spec_book_title(readme: Seq<char>, archive_path: Seq<char>) -> Seq<char> {
    match spec_title_from_readme(readme) {
        Some(t) => t,
        None => match spec_file_stem(archive_path) {
            Some(s) => s,
            None => "goosereader book"@,
        },
    }
}

/// A book as the reader opens it.
pub struct BookPayload {
    pub title: String,
    pub readme: String,
    pub style_css: String,
    pub chapters: Vec<BookChapter>,
    pub assets: Vec<BookAsset>,
    pub cover_image: Option<String>,
}

/// The book the reader opens from the archive's entries, given the cover
/// that its `metadata.json` names.
pub open spec fn payload_ok(p: BookPayload, archive_path: Seq<char>, s: ScanView, metadata_cover: Option<Seq<char>>) -> bool {
    &&& s.chapters.len() > 0
    &&& p.readme@ == s.readme
    &&& p.style_css@ == s.style
    &&& exists|order: Seq<int>| #[trigger] chapters_reordered(spec_readme_chapter_links(s.readme), s.chapters, chapter_views(p.chapters@), order)
    &&& exists|order: Seq<int>| #[trigger] assets_sorted(s.assets, asset_views(p.assets@), order)
    &&& opt_chars(p.cover_image) == spec_cover_from_assets(asset_views(p.assets@), metadata_cover)
    &&& p.title@ == spec_book_title(s.readme, archive_path)
}

/// What `Read::read_to_string` reports, as text, of bytes that are not
/// UTF-8.
pub uninterp spec fn utf8_read_error(bytes: Seq<u8>) -> Seq<char>;

/// `std::io::Read::read_to_string` on the bytes: their text when they
/// are UTF-8 (the documentation: an error is returned otherwise, and
/// reading a slice fails on nothing else), else its error as text.  The
/// error's wording is named, not stated.
#[verifier::external_body]
fn read_utf8(bytes: &[u8]) -> (r: Result<String, String>)
    ensures
        match r {
            Ok(t) => valid_utf8(bytes@) && t@ == decode_utf8(bytes@),
            Err(m) => !valid_utf8(bytes@) && m@ == utf8_read_error(bytes@),
        },
{
    let mut text = String::new();
    match std::io::Read::read_to_string(&mut &bytes[..], &mut text) {
        Ok(_) => Ok(text),
        Err(error) => Err(error.to_string()),
    }
}

/// What reading an entry as text reported: the reader's error when its
/// bytes could not be read, else the UTF-8 error.
pub open spec fn entry_text_error(e: RawEntry) -> Seq<char> {
    match e.bytes {
        None => e.read_error@,
        Some(b) => utf8_read_error(b@),
    }
}

pub open spec fn raw_asset_views(v: Seq<(String, Vec<u8>)>) -> Seq<(Seq<char>, Seq<u8>)> {
    v.map_values(|a: (String, Vec<u8>)| (a.0@, a.1@))
}

/// What the reader says of an entry it cannot take: an asset that could
/// not be read, or a text entry that could not be read as UTF-8.
pub open spec fn payload_entry_error(e: RawEntry) -> Seq<char> {
    let path = spec_normalize_zip_path(e.name@);
    if e.bytes is None && entry_kind(path) == EntryKind::Asset {
        "could not read asset "@ + path + ": "@ + e.read_error@
    } else {
        path + " is not valid UTF-8: "@ + entry_text_error(e)
    }
}

/// `m` is what the reader says of the first entry it cannot take.
pub open spec fn payload_failure_is(entries: Seq<RawEntry>, m: Seq<char>) -> bool {
    exists|i: int| #![trigger payload_scan(entries, i)]
        0 <= i < entries.len() && payload_scan(entries, i) is Some && payload_scan(entries, i + 1) is None
        && m == payload_entry_error(entries[i])
}

/// `m` is what the library list says of the first README or
/// `metadata.json` that it cannot read as UTF-8.
pub open spec fn summary_failure_is(entries: Seq<RawEntry>, m: Seq<char>) -> bool {
    exists|i: int| #![trigger summary_scan(entries, i)]
        0 <= i < entries.len() && summary_scan(entries, i) is Some && summary_scan(entries, i + 1) is None
        && m == spec_normalize_zip_path(entries[i].name@) + " is not valid UTF-8: "@ + entry_text_error(entries[i])
}

proof fn lemma_scan_stays_failed(entries: Seq<RawEntry>, k: int, n: int)
    requires
        0 <= k <= n <= entries.len(),
        payload_scan(entries, k) is None,
    ensures
        payload_scan(entries, n) is None,
    decreases n - k,
{
    if k < n {
        lemma_scan_stays_failed(entries, k + 1, n);
    }
}

/// The raw contents of the archive's entries, read in order.
fn scan_payload_entries(entries: &Vec<RawEntry>) -> (r: Result<(String, String, Vec<BookChapter>, Vec<(String, Vec<u8>)>), String>)
    ensures
        match r {
            Ok((readme, style, chapters, assets)) => payload_scan(entries@, entries@.len() as int) == Some(ScanView {
                readme: readme@,
                style: style@,
                chapters: chapter_views(chapters@),
                assets: raw_asset_views(assets@),
            }),
            Err(m) => payload_scan(entries@, entries@.len() as int) is None && payload_failure_is(entries@, m@),
        },
{
    let mut readme = String::new();
    let mut style_css = String::new();
    let mut chapters: Vec<BookChapter> = Vec::new();
    let mut raw_assets: Vec<(String, Vec<u8>)> = Vec::new();
    assert(chapter_views(chapters@) =~= Seq::<(Seq<char>, Seq<char>, Seq<char>)>::empty());
    assert(raw_asset_views(raw_assets@) =~= Seq::<(Seq<char>, Seq<u8>)>::empty());
    let mut k: usize = 0;
    while k < entries.len()
        invariant
            k <= entries@.len(),
            payload_scan(entries@, k as int) == Some(ScanView {
                readme: readme@,
                style: style_css@,
                chapters: chapter_views(chapters@),
                assets: raw_asset_views(raw_assets@),
            }),
        decreases entries@.len() - k,
    {
        let e = &entries[k];
        if !e.is_dir {
            let path = crate::reader_text::normalize_zip_path(e.name.as_str());
            let kind = kind_of_entry(path.as_str());
            if kind != EntryKind::Skipped {
                let bytes = match &e.bytes {
                    Some(b) => b,
                    None => {
                        proof { lemma_scan_stays_failed(entries@, k + 1, entries@.len() as int); }
                        let m = if kind == EntryKind::Asset {
                            let mut m = chars_of("could not read asset ");
                            append_chars(&mut m, &chars_of(path.as_str()));
                            append_chars(&mut m, &chars_of(": "));
                            append_chars(&mut m, &chars_of(e.read_error.as_str()));
                            m
                        } else {
                            let mut m = chars_of(path.as_str());
                            append_chars(&mut m, &chars_of(" is not valid UTF-8: "));
                            append_chars(&mut m, &chars_of(e.read_error.as_str()));
                            m
                        };
                        assert(m@ == payload_entry_error(entries@[k as int]));
                        assert(payload_scan(entries@, k as int) is Some);
                        return Err(string_of(&m));
                    },
                };
                if kind == EntryKind::Asset {
                    let ghost before = raw_asset_views(raw_assets@);
                    let pair = (path, crate::assets::copy_bytes(bytes));
                    let ghost pv = (pair.0@, pair.1@);
                    raw_assets.push(pair);
                    assert(raw_asset_views(raw_assets@) =~= before.push(pv));
                } else {
                    let text = match read_utf8(bytes.as_slice()) {
                        Ok(t) => t,
                        Err(error) => {
                            proof { lemma_scan_stays_failed(entries@, k + 1, entries@.len() as int); }
                            let mut m = chars_of(path.as_str());
                            append_chars(&mut m, &chars_of(" is not valid UTF-8: "));
                            append_chars(&mut m, &chars_of(error.as_str()));
                            assert(m@ == payload_entry_error(entries@[k as int]));
                            assert(payload_scan(entries@, k as int) is Some);
                            return Err(string_of(&m));
                        },
                    };
                    if kind == EntryKind::Readme {
                        readme = text;
                    } else if kind == EntryKind::Style {
                        style_css = text;
                    } else if kind == EntryKind::Chapter {
                        let title = crate::reader_text::chapter_title(text.as_str(), path.as_str());
                        let ghost before = chapter_views(chapters@);
                        let c = BookChapter { path, title, markdown: text };
                        chapters.push(c);
                        assert(chapter_views(chapters@) =~= before.push(chapter_view(c)));
                    }
                }
            }
        }
        k += 1;
    }
    Ok((readme, style_css, chapters, raw_assets))
}

/// The assets sorted by path, as data URLs.
fn sorted_assets(raw_assets: &Vec<(String, Vec<u8>)>) -> (r: Vec<BookAsset>)
    ensures
        exists|order: Seq<int>| #[trigger] assets_sorted(raw_asset_views(raw_assets@), asset_views(r@), order),
{
    let mut paths: Vec<String> = Vec::new();
    let mut i: usize = 0;
    while i < raw_assets.len()
        invariant
            i <= raw_assets@.len(),
            paths@.len() == i,
            forall|q: int| 0 <= q < i ==> (#[trigger] paths@[q])@ == raw_assets@[q].0@,
        decreases raw_assets@.len() - i,
    {
        paths.push(raw_assets[i].0.clone());
        i += 1;
    }
    let no_links: Vec<(String, String)> = Vec::new();
    let order = stable_order(&paths, &no_links);
    assert(toc_view(no_links@) =~= Seq::<(Seq<char>, Seq<char>)>::empty());
    let ghost rv = raw_asset_views(raw_assets@);
    assert(strings_view(paths@) =~= rv.map_values(|a: (Seq<char>, Seq<u8>)| a.0));
    let mut assets: Vec<BookAsset> = Vec::new();
    let mut k: usize = 0;
    while k < order.len()
        invariant
            k <= order@.len() == raw_assets@.len(),
            rv == raw_asset_views(raw_assets@),
            is_stable_order(Seq::empty(), rv.map_values(|a: (Seq<char>, Seq<u8>)| a.0), usize_ints(order@)),
            assets@.len() == k,
            forall|q: int| 0 <= q < k ==> #[trigger] asset_views(assets@)[q]
                == (rv[order@[q] as int].0, spec_data_url(rv[order@[q] as int].0, rv[order@[q] as int].1)),
        decreases order@.len() - k,
    {
        assert(usize_ints(order@)[k as int] == order@[k as int] as int);
        let a = &raw_assets[order[k]];
        let url = asset_data_url(a.0.as_str(), a.1.as_slice());
        let ghost before = asset_views(assets@);
        assets.push(BookAsset { path: a.0.clone(), data_url: url });
        assert(asset_views(assets@) =~= before.push((a.0@, url@)));
        k += 1;
    }
    proof {
        let ov = usize_ints(order@);
        assert forall|q: int| 0 <= q < ov.len() implies #[trigger] asset_views(assets@)[q]
            == (rv[ov[q]].0, spec_data_url(rv[ov[q]].0, rv[ov[q]].1)) by {
            assert(ov[q] == order@[q] as int);
        }
        assert(assets_sorted(rv, asset_views(assets@), ov));
    }
    assets
}

/// Opens a book from the entries of its archive (read in order) and the
/// cover its `metadata.json` names: the chapters in the README's order,
/// the assets by path as data URLs, the cover and the title.  A text
/// entry that is not UTF-8, an entry that cannot be read, and a book
/// without chapters are errors.
pub fn book_payload_from_entries(archive_path: &str, entries: &Vec<RawEntry>, metadata_cover: Option<&str>) -> (r: Result<BookPayload, String>)
    ensures
        match r {
            Ok(p) => payload_scan(entries@, entries@.len() as int) matches Some(s)
                && payload_ok(p, archive_path@, s, match metadata_cover { Some(c) => Some(c@), None => None }),
            Err(m) => match payload_scan(entries@, entries@.len() as int) {
                Some(s) => s.chapters.len() == 0 && m@ == "book archive does not contain chapters/*.md files"@,
                None => payload_failure_is(entries@, m@),
            },
        },
{
    let (readme, style_css, mut chapters, raw_assets) = match scan_payload_entries(entries) {
        Ok(t) => t,
        Err(e) => return Err(e),
    };
    let ghost scanned = chapter_views(chapters@);
    order_chapters_from_readme(&mut chapters, readme.as_str());
    let ghost chapter_order = choose|o: Seq<int>| chapters_reordered(spec_readme_chapter_links(readme@), scanned, chapter_views(chapters@), o);
    assert(chapters_reordered(spec_readme_chapter_links(readme@), scanned, chapter_views(chapters@), chapter_order));
    let assets = sorted_assets(&raw_assets);
    let ghost asset_order = choose|o: Seq<int>| assets_sorted(raw_asset_views(raw_assets@), asset_views(assets@), o);
    assert(assets_sorted(raw_asset_views(raw_assets@), asset_views(assets@), asset_order));
    let cover_image = cover_image_from_assets(&assets, metadata_cover);
    if chapters.len() == 0 {
        return Err(string_of(&chars_of("book archive does not contain chapters/*.md files")));
    }
    let title = match crate::reader_text::title_from_readme(readme.as_str()) {
        Some(t) => t,
        None => match crate::paths::file_stem(archive_path) {
            Some(stem) => string_of(&stem),
            None => {
                proof { reveal_strlit("goosereader book"); }
                string_of(&chars_of("goosereader book"))
            },
        },
    };
    let p = BookPayload { title, readme, style_css, chapters, assets, cover_image };
    let ghost sv = payload_scan(entries@, entries@.len() as int)->0;
    assert(sv.chapters == scanned);
    assert(sv.chapters.len() > 0);
    assert(p.title@ == spec_book_title(sv.readme, archive_path@));
    assert(chapters_reordered(spec_readme_chapter_links(sv.readme), sv.chapters, chapter_views(p.chapters@), chapter_order));
    assert(assets_sorted(sv.assets, asset_views(p.assets@), asset_order));
    Ok(p)
}


/// What the book list gathers from a book's entries: the README, the
/// chapter paths and the image assets' paths.
pub struct SummaryView {
    pub readme: Seq<char>,
    pub chapter_paths: Seq<Seq<char>>,
    pub image_paths: Seq<Seq<char>>,
}

/// One entry: the README and `metadata.json` must be readable UTF-8.
pub open spec fn summary_step(s: SummaryView, e: RawEntry) -> Option<SummaryView> {
    if e.is_dir {
        Some(s)
    } else {
        let path = spec_normalize_zip_path(e.name@);
        if path == "README.md"@ || path == "metadata.json"@ {
            match e.bytes {
                Some(b) => if !valid_utf8(b@) {
                    None
                } else if path == "README.md"@ {
                    Some(SummaryView { readme: decode_utf8(b@), ..s })
                } else {
                    Some(s)
                },
                None => None,
            }
        } else if has_prefix(path, "chapters/"@) && has_suffix(path, ".md"@) {
            Some(SummaryView { chapter_paths: s.chapter_paths.push(path), ..s })
        } else if has_prefix(path, "assets/"@) && spec_is_image_path(path) {
            Some(SummaryView { image_paths: s.image_paths.push(path), ..s })
        } else {
            Some(s)
        }
    }
}

pub open spec fn summary_scan(entries: Seq<RawEntry>, k: int) -> Option<SummaryView>
    decreases k,
{
    if k <= 0 || k > entries.len() {
        Some(SummaryView { readme: Seq::empty(), chapter_paths: Seq::empty(), image_paths: Seq::empty() })
    } else {
        match summary_scan(entries, k - 1) {
            None => None,
            Some(s) => summary_step(s, entries[k - 1]),
        }
    }
}

proof fn lemma_summary_stays_failed(entries: Seq<RawEntry>, k: int, n: int)
    requires
        0 <= k <= n <= entries.len(),
        summary_scan(entries, k) is None,
    ensures
        summary_scan(entries, n) is None,
    decreases n - k,
{
    if k < n {
        lemma_summary_stays_failed(entries, k + 1, n);
    }
}

/// The bytes of the first entry named exactly `name`, when they could
/// be read.
pub open spec fn entry_bytes_named(entries: Seq<RawEntry>, name: Seq<char>) -> Option<Seq<u8>>
    decreases entries.len(),
{
    if entries.len() == 0 {
        None
    } else if entries[0].name@ == name {
        match entries[0].bytes {
            Some(b) => Some(b@),
            None => None,
        }
    } else {
        entry_bytes_named(entries.drop_first(), name)
    }
}

/// The cover of a listed book: the chosen image's data URL, when it can
/// be read.
pub open spec fn summary_cover(entries: Seq<RawEntry>, image_paths: Seq<Seq<char>>, metadata_cover: Option<Seq<char>>) -> Option<Seq<char>> {
    match spec_choose_cover(image_paths, metadata_cover) {
        Some(c) => match entry_bytes_named(entries, c) {
            Some(b) => Some(spec_data_url(c, b)),
            None => None,
        },
        None => None,
    }
}

/// The list entry of a readable book.
pub open spec fn summary_ok(b: LibraryBook, archive_path: Seq<char>, modified_ms: u64, entries: Seq<RawEntry>, s: SummaryView, metadata_cover: Option<Seq<char>>) -> bool {
    let fallback_name = match spec_file_name(archive_path) {
        Some(n) => n,
        None => "book.zmd"@,
    };
    let fallback_title = match spec_file_stem(archive_path) {
        Some(t) => t,
        None => fallback_name,
    };
    &&& b.path@ == archive_path
    &&& b.file_name@ == fallback_name
    &&& b.title@ == match spec_title_from_readme(s.readme) {
        Some(t) => t,
        None => fallback_title,
    }
    &&& b.chapter_count == s.chapter_paths.len()
    &&& exists|order: Seq<int>| #[trigger] paths_reordered(spec_readme_chapter_links(s.readme), s.chapter_paths, strings_view(b.chapter_paths@), order)
    &&& b.progress_chapter_path is None
    &&& b.reading_progress_percent is None
    &&& !b.completed
    &&& b.modified_ms == modified_ms
    &&& opt_chars(b.cover_image) == summary_cover(entries, s.image_paths, metadata_cover)
}

fn entry_bytes_exec(entries: &Vec<RawEntry>, name: &str) -> (r: Option<Vec<u8>>)
    ensures
        match r {
            Some(b) => entry_bytes_named(entries@, name@) == Some(b@),
            None => entry_bytes_named(entries@, name@) is None,
        },
{
    let mut k: usize = 0;
    assert(entries@.skip(0) =~= entries@);
    while k < entries.len()
        invariant
            k <= entries@.len(),
            entry_bytes_named(entries@.skip(k as int), name@) == entry_bytes_named(entries@, name@),
        decreases entries@.len() - k,
    {
        assert(entries@.skip(k as int)[0] == entries@[k as int]);
        if str_eq(entries[k].name.as_str(), name) {
            return match &entries[k].bytes {
                Some(b) => Some(crate::assets::copy_bytes(b)),
                None => None,
            };
        }
        assert(entries@.skip(k as int).drop_first() =~= entries@.skip(k + 1));
        k += 1;
    }
    assert(entries@.skip(k as int) =~= Seq::<RawEntry>::empty());
    None
}

fn scan_summary_entries(entries: &Vec<RawEntry>) -> (r: Result<(String, Vec<String>, Vec<String>), String>)
    ensures
        match r {
            Ok((readme, chapters, images)) => summary_scan(entries@, entries@.len() as int) == Some(SummaryView {
                readme: readme@,
                chapter_paths: strings_view(chapters@),
                image_paths: strings_view(images@),
            }),
            Err(m) => summary_scan(entries@, entries@.len() as int) is None && summary_failure_is(entries@, m@),
        },
{
    proof {
        reveal_strlit("README.md");
        reveal_strlit("metadata.json");
        reveal_strlit("chapters/");
        reveal_strlit(".md");
        reveal_strlit("assets/");
    }
    let mut readme = String::new();
    let mut chapters: Vec<String> = Vec::new();
    let mut images: Vec<String> = Vec::new();
    assert(strings_view(chapters@) =~= Seq::<Seq<char>>::empty());
    assert(strings_view(images@) =~= Seq::<Seq<char>>::empty());
    let mut k: usize = 0;
    while k < entries.len()
        invariant
            k <= entries@.len(),
            summary_scan(entries@, k as int) == Some(SummaryView {
                readme: readme@,
                chapter_paths: strings_view(chapters@),
                image_paths: strings_view(images@),
            }),
        decreases entries@.len() - k,
    {
        let e = &entries[k];
        if !e.is_dir {
            let path = crate::reader_text::normalize_zip_path(e.name.as_str());
            let v = chars_of(path.as_str());
            if str_eq(path.as_str(), "README.md") || str_eq(path.as_str(), "metadata.json") {
                let text = match &e.bytes {
                    Some(b) => read_utf8(b.as_slice()),
                    None => Err(string_of(&chars_of(e.read_error.as_str()))),
                };
                match text {
                    Ok(t) => {
                        if str_eq(path.as_str(), "README.md") {
                            readme = t;
                        }
                    },
                    Err(error) => {
                        proof { lemma_summary_stays_failed(entries@, k + 1, entries@.len() as int); }
                        let mut m = chars_of(path.as_str());
                        append_chars(&mut m, &chars_of(" is not valid UTF-8: "));
                        append_chars(&mut m, &chars_of(error.as_str()));
                        assert(summary_scan(entries@, k as int) is Some);
                        return Err(string_of(&m));
                    },
                }
            } else if starts_with_str(&v, "chapters/") && ends_with_str(&v, ".md") {
                let ghost before = strings_view(chapters@);
                chapters.push(path);
                assert(strings_view(chapters@) =~= before.push(v@));
            } else if starts_with_str(&v, "assets/") && crate::reader_text::is_image_path(path.as_str()) {
                let ghost before = strings_view(images@);
                images.push(path);
                assert(strings_view(images@) =~= before.push(v@));
            }
        }
        k += 1;
    }
    Ok((readme, chapters, images))
}

/// The first error that reading a book's entries for its payload meets,
/// in the entries' order, or `None` when each can be read.
pub fn payload_entries_error(entries: &Vec<RawEntry>) -> (r: Option<String>)
    ensures
        match r {
            None => payload_scan(entries@, entries@.len() as int) is Some,
            Some(m) => payload_scan(entries@, entries@.len() as int) is None && payload_failure_is(entries@, m@),
        },
{
    match scan_payload_entries(entries) {
        Ok(_) => None,
        Err(m) => Some(m),
    }
}

/// The first error that reading a book's entries for its list entry
/// meets, in the entries' order, or `None` when each can be read.
pub fn summary_entries_error(entries: &Vec<RawEntry>) -> (r: Option<String>)
    ensures
        match r {
            None => summary_scan(entries@, entries@.len() as int) is Some,
            Some(m) => summary_scan(entries@, entries@.len() as int) is None && summary_failure_is(entries@, m@),
        },
{
    match scan_summary_entries(entries) {
        Ok(_) => None,
        Err(m) => Some(m),
    }
}

/// The list entry of a book from the entries of its archive, the cover
/// its `metadata.json` names and the time it was last changed.  A README
/// or `metadata.json` that cannot be read as UTF-8 is an error.
pub fn library_book_from_entries(
    archive_path: &str,
    modified_ms: u64,
    entries: &Vec<RawEntry>,
    metadata_cover: Option<&str>,
) -> (r: Result<LibraryBook, String>)
    ensures
        match r {
            Ok(b) => summary_scan(entries@, entries@.len() as int) matches Some(s)
                && summary_ok(b, archive_path@, modified_ms, entries@, s, match metadata_cover { Some(c) => Some(c@), None => None }),
            Err(m) => summary_scan(entries@, entries@.len() as int) is None && summary_failure_is(entries@, m@),
        },
{
    let (readme, mut chapter_paths, image_paths) = match scan_summary_entries(entries) {
        Ok(t) => t,
        Err(e) => return Err(e),
    };
    let ghost scanned = strings_view(chapter_paths@);
    order_chapter_paths_from_readme(&mut chapter_paths, readme.as_str());
    let ghost order = choose|o: Seq<int>| paths_reordered(spec_readme_chapter_links(readme@), scanned, strings_view(chapter_paths@), o);
    assert(paths_reordered(spec_readme_chapter_links(readme@), scanned, strings_view(chapter_paths@), order));
    let mut book = crate::library::fallback_library_book(archive_path, modified_ms);
    match crate::reader_text::title_from_readme(readme.as_str()) {
        Some(t) => book.title = t,
        None => {},
    }
    book.chapter_count = chapter_paths.len();
    book.chapter_paths = chapter_paths;
    book.cover_image = match crate::reader_text::choose_cover_asset_path(image_paths.as_slice(), metadata_cover) {
        Some(c) => match entry_bytes_exec(entries, c.as_str()) {
            Some(b) => Some(asset_data_url(c.as_str(), b.as_slice())),
            None => None,
        },
        None => None,
    };
    assert(paths_reordered(spec_readme_chapter_links(readme@), scanned, strings_view(book.chapter_paths@), order));
    let ghost sv = summary_scan(entries@, entries@.len() as int)->0;
    let ghost md = match metadata_cover { Some(c) => Some(c@), None => None };
    assert(book.path@ == archive_path@);
    assert(book.chapter_count == sv.chapter_paths.len());
    assert(opt_chars(book.cover_image) == summary_cover(entries@, sv.image_paths, md));
    assert(book.title@ == match spec_title_from_readme(sv.readme) {
        Some(t) => t,
        None => match spec_file_stem(archive_path@) {
            Some(t) => t,
            None => match spec_file_name(archive_path@) {
                Some(n) => n,
                None => "book.zmd"@,
            },
        },
    });
    Ok(book)
}

} // verus!

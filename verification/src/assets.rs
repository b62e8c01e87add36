//! The images of the book: which ones the archive gets, under which
//! names, and where the chapters' links to them point.
use vstd::prelude::*;
use vstd::set_lib::{set_int_range, lemma_int_range, lemma_len_subset, lemma_map_size};
use crate::text::{
    chars_of, string_of, sub_chars, append_chars, str_eq, chars_eq, to_lowercase, lowercase,
    seq_le, seq_lt, chars_lt, lemma_seq_lt_total, lemma_seq_le_transitive,
};
use crate::paths::{
    split_on, join_on, split_chars, is_dot, is_dot_dot, spec_stem_of_name, spec_extension,
    extension, find_last_char, last_pos, remove_fragment, spec_remove_fragment, join_path,
    spec_join_path, normalize_path, spec_normalize_path,
};
use crate::naming::{decimal, push_decimal, push_decimal_wide, trim_start_by, trim_end_by};
use crate::segments::lemma_decimal_injective;
use crate::regex_calls::{regex_replaced_all, regex_replace_all};
use crate::textmap::{TextMap, map_of};
use crate::model::{ManifestItem, EpubPackage, opt_view};
use crate::ConversionError;

verus! {

broadcast use vstd::string::group_string_axioms;

/// `format!("{base}-{suffix}{tail}")`.
pub open spec fn suffixed_with(base: Seq<char>, suffix: nat, tail: Seq<char>) -> Seq<char> {
    base.push('-') + decimal(suffix) + tail
}

/// The smallest suffix from 2 on whose name is not taken.
pub open spec fn first_free(base: Seq<char>, tail: Seq<char>, taken: Set<Seq<char>>) -> nat {
    choose|s: nat| s >= 2 && !taken.contains(suffixed_with(base, s, tail))
        && forall|t: nat| 2 <= t < s ==> taken.contains(#[trigger] suffixed_with(base, t, tail))
}

proof fn lemma_suffixed_with_injective(base: Seq<char>, tail: Seq<char>, a: nat, b: nat)
    requires
        suffixed_with(base, a, tail) == suffixed_with(base, b, tail),
    ensures
        a == b,
{
    let na = suffixed_with(base, a, tail);
    let nb = suffixed_with(base, b, tail);
    assert(na.len() == nb.len());
    let da = decimal(a);
    let db = decimal(b);
    assert(da.len() == db.len());
    assert(da =~= na.subrange(base.len() + 1 as int, base.len() + 1 + da.len() as int));
    assert(db =~= nb.subrange(base.len() + 1 as int, base.len() + 1 + db.len() as int));
    lemma_decimal_injective(a, b);
}

/// Some suffix below `taken.len() + 3` gives a name that is not taken.
proof fn lemma_free_exists(base: Seq<char>, tail: Seq<char>, taken: Set<Seq<char>>)
    requires
        taken.finite(),
    ensures
        exists|s: nat| 2 <= s < taken.len() + 3 && !taken.contains(#[trigger] suffixed_with(base, s, tail)),
{
    if forall|s: nat| 2 <= s < taken.len() + 3 ==> taken.contains(#[trigger] suffixed_with(base, s, tail)) {
        let r = set_int_range(2, taken.len() + 3 as int);
        lemma_int_range(2, taken.len() + 3 as int);
        let f = |i: int| suffixed_with(base, i as nat, tail);
        let img = r.map(f);
        assert forall|x: int, y: int| r.contains(x) && r.contains(y) && #[trigger] f(x) == #[trigger] f(y)
            implies x == y by {
            lemma_suffixed_with_injective(base, tail, x as nat, y as nat);
        }
        assert(vstd::relations::injective_on(f, r));
        lemma_map_size(r, img, f);
        assert(img.subset_of(taken)) by {
            assert forall|n: Seq<char>| img.contains(n) implies taken.contains(n) by {
                let x = choose|x: int| r.contains(x) && f(x) == n;
                assert(taken.contains(suffixed_with(base, x as nat, tail)));
            }
        }
        lemma_len_subset(img, taken);
        assert(false);
    }
}

proof fn lemma_first_free(base: Seq<char>, tail: Seq<char>, taken: Set<Seq<char>>, s: nat)
    requires
        s >= 2,
        !taken.contains(suffixed_with(base, s, tail)),
        forall|t: nat| 2 <= t < s ==> taken.contains(#[trigger] suffixed_with(base, t, tail)),
    ensures
        first_free(base, tail, taken) == s,
{
    let c = first_free(base, tail, taken);
    assert(c >= 2 && !taken.contains(suffixed_with(base, c, tail))
        && forall|t: nat| 2 <= t < c ==> taken.contains(#[trigger] suffixed_with(base, t, tail)));
    if c < s {
        assert(taken.contains(suffixed_with(base, c, tail)));
    } else if s < c {
        assert(taken.contains(suffixed_with(base, s, tail)));
    }
}

/// The parts of a path without the empty and `.` parts that end it.
pub open spec fn strip_trailing_parts(parts: Seq<Seq<char>>) -> Seq<Seq<char>>
    decreases parts.len(),
{
    if parts.len() > 0 && (parts.last().len() == 0 || is_dot(parts.last())) {
        strip_trailing_parts(parts.drop_last())
    } else {
        parts
    }
}

/// `Path::with_extension("")` on a `/`-separated path: the path cut
/// after the stem of its file name; the path itself when it has no file
/// name.
pub open spec fn spec_without_extension(path: Seq<char>) -> Seq<char> {
    let parts = strip_trailing_parts(split_on(path, '/'));
    if parts.len() == 0 || is_dot_dot(parts.last()) {
        path
    } else {
        join_on(parts.drop_last().push(spec_stem_of_name(parts.last())), '/')
    }
}

fn without_extension(path: &str) -> (r: Vec<char>)
    ensures
        r@ == spec_without_extension(path@),
{
    let parts = split_chars(&chars_of(path), '/');
    let ghost views = parts@.map_values(|v: Vec<char>| v@);
    let mut n = parts.len();
    assert(views.take(parts.len() as int) =~= views);
    while n > 0 && (parts[n - 1].len() == 0 || (parts[n - 1].len() == 1 && parts[n - 1][0] == '.'))
        invariant
            n <= parts@.len(),
            views == parts@.map_values(|v: Vec<char>| v@),
            strip_trailing_parts(views.take(n as int)) == strip_trailing_parts(split_on(path@, '/')),
            views == split_on(path@, '/'),
        decreases n,
    {
        assert(views.take(n as int).last() == parts@[n - 1]@);
        assert(views.take(n - 1) =~= views.take(n as int).drop_last());
        proof {
            if parts@[n - 1]@.len() == 1 {
                assert(parts@[n - 1]@ =~= seq!['.']);
            }
        }
        n -= 1;
    }
    let ghost kept = views.take(n as int);
    assert(strip_trailing_parts(kept) == kept) by {
        if n > 0 {
            assert(kept.last() == parts@[n - 1]@);
            if is_dot(kept.last()) {
                assert(kept.last()[0] == '.');
            }
        }
    }
    if n == 0 {
        return chars_of(path);
    }
    assert(kept.last() == parts@[n - 1]@);
    let last = &parts[n - 1];
    if last.len() == 2 && last[0] == '.' && last[1] == '.' {
        assert(last@ =~= seq!['.', '.']);
        return chars_of(path);
    }
    assert(!is_dot_dot(kept.last())) by {
        if is_dot_dot(kept.last()) {
            assert(last@[0] == '.' && last@[1] == '.');
        }
    }
    let stem = match find_last_char(last, '.') {
        Some(k) => if k == 0 { sub_chars(last, 0, last.len()) } else { sub_chars(last, 0, k) },
        None => sub_chars(last, 0, last.len()),
    };
    assert(stem@ =~= spec_stem_of_name(last@));
    let mut out: Vec<char> = Vec::new();
    let mut i: usize = 0;
    let ghost target = kept.drop_last().push(stem@);
    while i + 1 < n
        invariant
            i + 1 <= n,
            n <= parts@.len(),
            views == parts@.map_values(|v: Vec<char>| v@),
            kept == views.take(n as int),
            target == kept.drop_last().push(stem@),
            out@ == join_on(target.take(i as int), '/'),
        decreases n - i,
    {
        let ghost t = target.take(i + 1);
        assert(t.drop_last() =~= target.take(i as int));
        assert(t.last() == parts@[i as int]@);
        if i > 0 {
            out.push('/');
        }
        append_chars(&mut out, &parts[i]);
        proof {
            if i == 0 {
                assert(target.take(0) =~= Seq::<Seq<char>>::empty());
                assert(out@ =~= t[0]);
            }
        }
        i += 1;
    }
    let ghost t = target.take(n as int);
    assert(t =~= target);
    assert(t.drop_last() =~= target.take(i as int));
    if i > 0 {
        out.push('/');
    }
    append_chars(&mut out, &stem);
    proof {
        if i == 0 {
            assert(target.take(0) =~= Seq::<Seq<char>>::empty());
            assert(target.len() == 1);
            assert(out@ =~= target[0]);
        }
    }
    out
}

pub open spec fn is_dash(c: char) -> bool {
    c == '-'
}

/// The readable base of an asset name: the path without its extension,
/// runs of characters other than ASCII letters, digits, `_` and `-`
/// made into `-`, dashes trimmed; `asset` when nothing is left.
pub open spec fn spec_asset_base(path: Seq<char>) -> Seq<char> {
    let replaced = regex_replaced_all(r"[^A-Za-z0-9_-]+"@, spec_without_extension(path), "-"@);
    let trimmed = trim_end_by(trim_start_by(replaced, |c: char| is_dash(c)), |c: char| is_dash(c));
    if trimmed.len() == 0 { "asset"@ } else { trimmed }
}

/// `.ext`, or nothing when the path has no (or an empty) extension.
pub open spec fn spec_ext_tail(path: Seq<char>) -> Seq<char> {
    match spec_extension(path) {
        Some(e) => if e.len() == 0 { Seq::<char>::empty() } else { seq!['.'] + e },
        None => Seq::<char>::empty(),
    }
}

/// The name an asset at `path` gets when the names in `used` are taken:
/// `base.ext`, or `base-N.ext` with the smallest free `N` from 2 on.
pub open spec fn spec_unique_name(path: Seq<char>, used: Set<Seq<char>>) -> Seq<char> {
    let base = spec_asset_base(path);
    let tail = spec_ext_tail(path);
    if !used.contains(base + tail) {
        base + tail
    } else {
        suffixed_with(base, first_free(base, tail, used), tail)
    }
}

fn trim_dashes(v: &Vec<char>) -> (r: Vec<char>)
    ensures
        r@ == trim_end_by(trim_start_by(v@, |c: char| is_dash(c)), |c: char| is_dash(c)),
{
    let mut start: usize = 0;
    assert(v@.skip(0) =~= v@);
    while start < v.len() && v[start] == '-'
        invariant
            start <= v@.len(),
            trim_start_by(v@.skip(start as int), |c: char| is_dash(c)) == trim_start_by(v@, |c: char| is_dash(c)),
        decreases v@.len() - start,
    {
        assert(v@.skip(start as int).drop_first() =~= v@.skip(start + 1));
        start += 1;
    }
    let ghost s = v@.skip(start as int);
    assert(trim_start_by(s, |c: char| is_dash(c)) == s);
    let mut end = v.len();
    assert(v@.subrange(start as int, v@.len() as int) =~= s);
    while end > start && v[end - 1] == '-'
        invariant
            start <= end <= v@.len(),
            s == v@.skip(start as int),
            trim_end_by(v@.subrange(start as int, end as int), |c: char| is_dash(c)) == trim_end_by(s, |c: char| is_dash(c)),
        decreases end,
    {
        assert(v@.subrange(start as int, end - 1) =~= v@.subrange(start as int, end as int).drop_last());
        end -= 1;
    }
    sub_chars(v, start, end)
}

/// What an asset mapper holds, as plain values.
pub struct AssetMapperView {
    pub links: Map<Seq<char>, Seq<char>>,
    pub assets: Seq<(Seq<char>, Seq<u8>)>,
    pub used: Set<Seq<char>>,
}

/// An image copied into the archive: its path there and its bytes.
pub struct AssetData {
    pub path: String,
    pub bytes: Vec<u8>,
}

pub open spec fn asset_view(a: AssetData) -> (Seq<char>, Seq<u8>) {
    (a.path@, a.bytes@)
}

/// The asset names given so far, the copied assets, and the Markdown
/// path of each asset under its EPUB path and its href.
pub struct AssetMapper {
    pub href_to_markdown_path: TextMap<String>,
    pub copied_assets: Vec<AssetData>,
    pub used_names: Vec<String>,
}

pub open spec fn string_map_view(m: Map<Seq<char>, String>) -> Map<Seq<char>, Seq<char>> {
    m.map_values(|v: String| v@)
}

impl View for AssetMapper {
    type V = AssetMapperView;

    open spec fn view(&self) -> AssetMapperView {
        AssetMapperView {
            links: string_map_view(self.href_to_markdown_path@),
            assets: self.copied_assets@.map_values(|a: AssetData| asset_view(a)),
            used: self.used_names@.map_values(|s: String| s@).to_set(),
        }
    }
}

/// `"../assets/" + name`, as the chapters link to it.
pub open spec fn chapter_asset_link(name: Seq<char>) -> Seq<char> {
    "../assets/"@ + name
}

/// `"assets/" + name`, the asset's path in the archive.
pub open spec fn archive_asset_path(name: Seq<char>) -> Seq<char> {
    "assets/"@ + name
}

/// The mapper after an asset was copied under a fresh name, with links
/// from each of `keys`.
pub open spec fn spec_record(m: AssetMapperView, path: Seq<char>, keys: Seq<Seq<char>>, bytes: Seq<u8>) -> AssetMapperView {
    let name = spec_unique_name(path, m.used);
    let link = chapter_asset_link(name);
    AssetMapperView {
        links: insert_all(m.links, keys, link),
        assets: m.assets.push((archive_asset_path(name), bytes)),
        used: m.used.insert(name),
    }
}

pub open spec fn insert_all(m: Map<Seq<char>, Seq<char>>, keys: Seq<Seq<char>>, v: Seq<char>) -> Map<Seq<char>, Seq<char>>
    decreases keys.len(),
{
    if keys.len() == 0 { m } else { insert_all(m, keys.drop_last(), v).insert(keys.last(), v) }
}

proof fn lemma_push_to_set(s: Seq<Seq<char>>, x: Seq<char>)
    ensures
        s.push(x).to_set() == s.to_set().insert(x),
{
    assert forall|y: Seq<char>| s.push(x).to_set().contains(y) <==> s.to_set().insert(x).contains(y) by {
        if s.push(x).contains(y) {
            let j = choose|j: int| 0 <= j < s.push(x).len() && s.push(x)[j] == y;
            if j < s.len() {
                assert(s[j] == y);
            }
        }
        if s.contains(y) {
            let j = choose|j: int| 0 <= j < s.len() && s[j] == y;
            assert(s.push(x)[j] == y);
        }
        if y == x {
            assert(s.push(x)[s.len() as int] == x);
        }
    }
    assert(s.push(x).to_set() =~= s.to_set().insert(x));
}

pub(crate) fn copy_bytes(b: &Vec<u8>) -> (r: Vec<u8>)
    ensures
        r@ == b@,
{
    let mut r: Vec<u8> = Vec::new();
    let mut i: usize = 0;
    while i < b.len()
        invariant
            i <= b@.len(),
            r@ == b@.take(i as int),
        decreases b@.len() - i,
    {
        r.push(b[i]);
        assert(b@.take(i + 1) =~= b@.take(i as int).push(b@[i as int]));
        i += 1;
    }
    assert(b@.take(b@.len() as int) =~= b@);
    r
}

impl AssetMapper {
    pub fn new() -> (r: AssetMapper)
        ensures
            r@.links == Map::<Seq<char>, Seq<char>>::empty(),
            r@.assets == Seq::<(Seq<char>, Seq<u8>)>::empty(),
            r@.used == Set::<Seq<char>>::empty(),
    {
        let r = AssetMapper {
            href_to_markdown_path: TextMap::new(),
            copied_assets: Vec::new(),
            used_names: Vec::new(),
        };
        assert(r@.links =~= Map::<Seq<char>, Seq<char>>::empty());
        assert(r@.assets =~= Seq::<(Seq<char>, Seq<u8>)>::empty());
        assert(r@.used =~= Set::<Seq<char>>::empty());
        r
    }

    fn name_used(&self, name: &Vec<char>) -> (r: bool)
        ensures
            r == self@.used.contains(name@),
    {
        let ghost uv = self.used_names@.map_values(|s: String| s@);
        let mut i: usize = 0;
        while i < self.used_names.len()
            invariant
                i <= self.used_names@.len(),
                uv == self.used_names@.map_values(|s: String| s@),
                forall|j: int| 0 <= j < i ==> uv[j] != name@,
            decreases self.used_names@.len() - i,
        {
            if str_eq(self.used_names[i].as_str(), string_of(name).as_str()) {
                assert(uv[i as int] == name@);
                assert(uv.contains(name@));
                return true;
            }
            i += 1;
        }
        assert(!uv.contains(name@));
        false
    }

    /// A file name for the asset at `path` that no earlier asset has.
    pub fn unique_file_name(&mut self, path: &str) -> (r: String)
        ensures
            final(self).used_names@.len() == old(self).used_names@.len() + 1,
            r@ == spec_unique_name(path@, old(self)@.used),
            final(self)@.used == old(self)@.used.insert(r@),
            final(self)@.links == old(self)@.links,
            final(self)@.assets == old(self)@.assets,
            !old(self)@.used.contains(r@),
    {
        let stem = without_extension(path);
        let ext: Vec<char> = match extension(path) {
            Some(e) => e,
            None => Vec::new(),
        };
        let tail: Vec<char> = if ext.len() == 0 {
            Vec::new()
        } else {
            let mut t: Vec<char> = Vec::new();
            t.push('.');
            append_chars(&mut t, &ext);
            t
        };
        assert(tail@ =~= spec_ext_tail(path@));
        let replaced = regex_replace_all(r"[^A-Za-z0-9_-]+", string_of(&stem).as_str(), "-");
        let mut base = trim_dashes(&chars_of(replaced.as_str()));
        proof { reveal_strlit("asset"); }
        if base.len() == 0 {
            base = chars_of("asset");
        }
        assert(base@ =~= spec_asset_base(path@));
        let ghost used = self@.used;
        let mut candidate = base.clone();
        append_chars(&mut candidate, &tail);
        if self.name_used(&candidate) {
            let ghost taken = used;
            proof {
                self.used_names@.map_values(|s: String| s@).lemma_cardinality_of_set();
                lemma_free_exists(base@, tail@, taken);
            }
            assert(taken.len() <= self.used_names@.len());
            let nused = self.used_names.len();
            let mut index: u128 = 2;
            let mut next = base.clone();
            next.push('-');
            push_decimal_wide(&mut next, index);
            append_chars(&mut next, &tail);
            assert(next@ =~= suffixed_with(base@, 2, tail@));
            while self.name_used(&next)
                invariant
                    2 <= index,
                    taken == self@.used,
                    taken.finite(),
                    taken.len() <= nused,
                    next@ == suffixed_with(base@, index as nat, tail@),
                    forall|t: nat| 2 <= t < index ==> taken.contains(#[trigger] suffixed_with(base@, t, tail@)),
                    exists|s: nat| 2 <= s < taken.len() + 3 && !taken.contains(#[trigger] suffixed_with(base@, s, tail@)),
                decreases taken.len() + 3 - index,
            {
                proof {
                    if index >= taken.len() + 3 {
                        let s = choose|s: nat| 2 <= s < taken.len() + 3 && !taken.contains(#[trigger] suffixed_with(base@, s, tail@));
                        assert(taken.contains(suffixed_with(base@, s, tail@)));
                    }
                }
                index += 1;
                next = base.clone();
                next.push('-');
                push_decimal_wide(&mut next, index);
                append_chars(&mut next, &tail);
                assert(next@ =~= suffixed_with(base@, index as nat, tail@));
            }
            proof {
                lemma_first_free(base@, tail@, taken, index as nat);
            }
            candidate = next;
        }
        let name = string_of(&candidate);
        let ghost before = self.used_names@.map_values(|s: String| s@);
        self.used_names.push(string_of(&candidate));
        proof {
            assert(self.used_names@.map_values(|s: String| s@) =~= before.push(name@));
            lemma_push_to_set(before, name@);
        }
        name
    }
}


pub open spec fn has_prefix(s: Seq<char>, p: Seq<char>) -> bool {
    p.len() <= s.len() && s.take(p.len() as int) == p
}

pub open spec fn is_image_extension(e: Seq<char>) -> bool {
    e == "png"@ || e == "jpg"@ || e == "jpeg"@ || e == "gif"@ || e == "svg"@ || e == "webp"@
}

/// An image: an `image/*` media type (any case), or an image extension.
pub open spec fn spec_is_asset(item: ManifestItem) -> bool {
    has_prefix(lowercase(item.media_type@), "image/"@)
        || match spec_extension(item.href@) {
            Some(e) => is_image_extension(lowercase(e)),
            None => false,
        }
}

/// Whether a string is one of the image extensions.
pub fn is_image_extension_str(e: &str) -> (r: bool)
    ensures
        r == is_image_extension(e@),
{
    str_eq(e, "png") || str_eq(e, "jpg") || str_eq(e, "jpeg") || str_eq(e, "gif") || str_eq(e, "svg")
        || str_eq(e, "webp")
}

fn starts_with_str(v: &Vec<char>, p: &str) -> (r: bool)
    ensures
        r == has_prefix(v@, p@),
{
    crate::text::starts_with_chars(v, &chars_of(p))
}

pub fn is_asset(item: &ManifestItem) -> (r: bool)
    ensures
        r == spec_is_asset(*item),
{
    let media = chars_of(to_lowercase(item.media_type.as_str()).as_str());
    if starts_with_str(&media, "image/") {
        return true;
    }
    match extension(item.href.as_str()) {
        Some(e) => is_image_extension_str(to_lowercase(string_of(&e).as_str()).as_str()),
        None => false,
    }
}

/// A content document: `xhtml` in its media type or an `.xhtml` href
/// (any case).
pub open spec fn spec_is_xhtml_item(item: ManifestItem) -> bool {
    contains_seq(lowercase(item.media_type@), "xhtml"@) || has_suffix(lowercase(item.href@), ".xhtml"@)
}

pub open spec fn contains_seq(s: Seq<char>, p: Seq<char>) -> bool {
    crate::toc::find_from(s, p, 0) is Some
}

pub open spec fn has_suffix(s: Seq<char>, p: Seq<char>) -> bool {
    p.len() <= s.len() && s.skip(s.len() - p.len()) == p
}

pub fn contains_str(v: &Vec<char>, p: &str) -> (r: bool)
    ensures
        r == contains_seq(v@, p@),
{
    crate::toc::find_chars_from(v, &chars_of(p), 0).is_some()
}

pub fn ends_with_str(v: &Vec<char>, p: &str) -> (r: bool)
    ensures
        r == has_suffix(v@, p@),
{
    crate::text::ends_with_chars(v, &chars_of(p))
}

pub fn is_xhtml_item(item: &ManifestItem) -> (r: bool)
    ensures
        r == spec_is_xhtml_item(*item),
{
    let media = chars_of(to_lowercase(item.media_type.as_str()).as_str());
    let href = chars_of(to_lowercase(item.href.as_str()).as_str());
    contains_str(&media, "xhtml") || ends_with_str(&href, ".xhtml")
}

/// The Markdown path of an asset that a chapter in `base` links as
/// `href`: under its resolved path, or else under the href as written.
pub open spec fn spec_asset_link(links: Map<Seq<char>, Seq<char>>, href: Seq<char>, base: Seq<char>) -> Option<Seq<char>> {
    let no_fragment = spec_remove_fragment(href);
    let absolute = spec_normalize_path(spec_join_path(base, no_fragment));
    if links.contains_key(absolute) {
        Some(links[absolute])
    } else if links.contains_key(no_fragment) {
        Some(links[no_fragment])
    } else {
        None
    }
}

/// `s.trim_start_matches(p)`.
pub open spec fn trim_start_prefix(s: Seq<char>, p: Seq<char>) -> Seq<char>
    decreases s.len(),
{
    if p.len() > 0 && has_prefix(s, p) { trim_start_prefix(s.skip(p.len() as int), p) } else { s }
}

fn trim_start_prefix_chars(v: &Vec<char>, p: &Vec<char>) -> (r: Vec<char>)
    ensures
        r@ == trim_start_prefix(v@, p@),
{
    if p.len() == 0 {
        return sub_chars(v, 0, v.len());
    }
    let mut i: usize = 0;
    assert(v@.skip(0) =~= v@);
    while i <= v.len() && crate::text::matches_at(v, i, p)
        invariant
            i <= v@.len(),
            p@.len() > 0,
            trim_start_prefix(v@.skip(i as int), p@) == trim_start_prefix(v@, p@),
        decreases v@.len() - i,
    {
        assert(v@.skip(i as int).take(p@.len() as int) =~= v@.subrange(i as int, i + p@.len()));
        assert(v@.skip(i as int).skip(p@.len() as int) =~= v@.skip(i + p@.len()));
        i += p.len();
    }
    proof {
        if has_prefix(v@.skip(i as int), p@) {
            assert(v@.skip(i as int).take(p@.len() as int) =~= v@.subrange(i as int, i + p@.len()));
        }
    }
    sub_chars(v, i, v.len())
}

pub open spec fn spec_archive_path_for(links: Map<Seq<char>, Seq<char>>, epub_path: Seq<char>) -> Option<Seq<char>> {
    if links.contains_key(epub_path) { Some(trim_start_prefix(links[epub_path], "../"@)) } else { None }
}

pub open spec fn entries_view(m: Map<Seq<char>, Vec<u8>>) -> Map<Seq<char>, Seq<u8>> {
    m.map_values(|v: Vec<u8>| v@)
}

impl AssetMapper {
    /// The Markdown path of an image that a chapter in
    /// `content_base_directory` links as `href`.
    pub fn markdown_path(&self, href: &str, content_base_directory: &str) -> (r: Option<String>)
        ensures
            opt_view(r) == spec_asset_link(self@.links, href@, content_base_directory@),
    {
        let no_fragment = remove_fragment(href);
        let absolute = normalize_path(join_path(content_base_directory, no_fragment.as_str()).as_str());
        match self.href_to_markdown_path.get(absolute.as_str()) {
            Some(p) => Some(p.clone()),
            None => match self.href_to_markdown_path.get(no_fragment.as_str()) {
                Some(p) => Some(p.clone()),
                None => None,
            },
        }
    }

    /// The archive path of the asset copied from `epub_path`, if it was.
    pub fn archive_asset_path_for_epub_path(&self, epub_path: &str) -> (r: Option<String>)
        ensures
            opt_view(r) == spec_archive_path_for(self@.links, epub_path@),
    {
        proof { reveal_strlit("../"); }
        match self.href_to_markdown_path.get(epub_path) {
            Some(p) => Some(string_of(&trim_start_prefix_chars(&chars_of(p.as_str()), &chars_of("../")))),
            None => None,
        }
    }

    fn record(&mut self, path: &str, keys: &Vec<String>, bytes: &Vec<u8>) -> (r: String)
        ensures
            final(self)@ == spec_record(old(self)@, path@, keys@.map_values(|k: String| k@), bytes@),
            r@ == chapter_asset_link(spec_unique_name(path@, old(self)@.used)),
            final(self).used_names@.len() == old(self).used_names@.len() + 1,
    {
        let name = self.unique_file_name(path);
        proof {
            reveal_strlit("../assets/");
            reveal_strlit("assets/");
        }
        let mut link = chars_of("../assets/");
        append_chars(&mut link, &chars_of(name.as_str()));
        let link = string_of(&link);
        let ghost kv = keys@.map_values(|k: String| k@);
        let ghost links0 = self@.links;
        let mut i: usize = 0;
        while i < keys.len()
            invariant
                i <= keys@.len(),
                kv == keys@.map_values(|k: String| k@),
                self@.links == insert_all(links0, kv.take(i as int), link@),
                self@.used == old(self)@.used.insert(name@),
                self@.assets == old(self)@.assets,
                self.used_names@.len() == old(self).used_names@.len() + 1,
                links0 == old(self)@.links,
            decreases keys@.len() - i,
        {
            let ghost t = kv.take(i + 1);
            assert(t.drop_last() =~= kv.take(i as int));
            let ghost before = self.href_to_markdown_path@;
            self.href_to_markdown_path.insert(keys[i].clone(), link.clone());
            assert(string_map_view(self.href_to_markdown_path@) =~= string_map_view(before).insert(kv[i as int], link@));
            i += 1;
        }
        assert(kv.take(keys@.len() as int) =~= kv);
        let mut apath = chars_of("assets/");
        append_chars(&mut apath, &chars_of(name.as_str()));
        let asset = AssetData { path: string_of(&apath), bytes: copy_bytes(bytes) };
        let ghost before = self.copied_assets@;
        self.copied_assets.push(asset);
        assert(self.copied_assets@.map_values(|a: AssetData| asset_view(a))
            =~= before.map_values(|a: AssetData| asset_view(a)).push(asset_view(asset)));
        link
    }

    /// Copies the image that a chapter links as `href` when the book has
    /// it and it was not copied yet; its Markdown path, or nothing when the
    /// book does not have it.
    pub fn copy_referenced_asset_if_present(
        &mut self,
        href: &str,
        content_base_directory: &str,
        entries: &TextMap<Vec<u8>>,
    ) -> (r: Result<Option<String>, ConversionError>)
        ensures
            ({
                let no_fragment = spec_remove_fragment(href@);
                let absolute = spec_normalize_path(spec_join_path(content_base_directory@, no_fragment));
                match spec_asset_link(old(self)@.links, href@, content_base_directory@) {
                    Some(existing) => r matches Ok(Some(p)) && p@ == existing && final(self)@ == old(self)@
                        && final(self).used_names@.len() == old(self).used_names@.len(),
                    None => if entries@.contains_key(absolute) {
                        r matches Ok(Some(p))
                            && p@ == chapter_asset_link(spec_unique_name(absolute, old(self)@.used))
                            && final(self)@ == spec_record(old(self)@, absolute, seq![absolute, no_fragment], entries@[absolute]@)
                            && final(self).used_names@.len() == old(self).used_names@.len() + 1
                    } else {
                        r matches Ok(None) && final(self)@ == old(self)@
                            && final(self).used_names@.len() == old(self).used_names@.len()
                    },
                }
            }),
    {
        let no_fragment = remove_fragment(href);
        let absolute = normalize_path(join_path(content_base_directory, no_fragment.as_str()).as_str());
        if let Some(existing) = self.markdown_path(href, content_base_directory) {
            return Ok(Some(existing));
        }
        let bytes = match entries.get(absolute.as_str()) {
            Some(b) => b,
            None => return Ok(None),
        };
        let mut keys: Vec<String> = Vec::new();
        keys.push(absolute.clone());
        keys.push(no_fragment);
        assert(keys@.map_values(|k: String| k@) =~= seq![absolute@, spec_remove_fragment(href@)]);
        let link = self.record(absolute.as_str(), &keys, bytes);
        Ok(Some(link))
    }

    /// Copies the asset at `absolute_path` (the cover image) unless it was
    /// copied already; its archive path, or nothing when the book does not
    /// have it.
    pub fn copy_asset_at_path_if_present(&mut self, absolute_path: &str, entries: &TextMap<Vec<u8>>) -> (r: Option<String>)
        ensures
            match spec_archive_path_for(old(self)@.links, absolute_path@) {
                Some(existing) => opt_view(r) == Some(existing) && final(self)@ == old(self)@
                    && final(self).used_names@.len() == old(self).used_names@.len(),
                None => if entries@.contains_key(absolute_path@) {
                    opt_view(r) == Some(trim_start_prefix(
                        chapter_asset_link(spec_unique_name(absolute_path@, old(self)@.used)), "../"@))
                        && final(self)@ == spec_record(old(self)@, absolute_path@, seq![absolute_path@], entries@[absolute_path@]@)
                        && final(self).used_names@.len() == old(self).used_names@.len() + 1
                } else {
                    r is None && final(self)@ == old(self)@
                        && final(self).used_names@.len() == old(self).used_names@.len()
                },
            },
    {
        if let Some(existing) = self.archive_asset_path_for_epub_path(absolute_path) {
            return Some(existing);
        }
        let bytes = match entries.get(absolute_path) {
            Some(b) => b,
            None => return None,
        };
        let mut keys: Vec<String> = Vec::new();
        keys.push(string_of(&chars_of(absolute_path)));
        assert(keys@.map_values(|k: String| k@) =~= seq![absolute_path@]);
        let link = self.record(absolute_path, &keys, bytes);
        proof { reveal_strlit("../"); }
        Some(string_of(&trim_start_prefix_chars(&chars_of(link.as_str()), &chars_of("../"))))
    }
}


/// A manifest item as plain values: href, media type, path, properties.
pub open spec fn item_view(i: ManifestItem) -> (Seq<char>, Seq<char>, Seq<char>, Seq<char>) {
    (i.href@, i.media_type@, i.absolute_path@, i.properties@)
}

pub open spec fn later_has_key(p: Seq<(String, ManifestItem)>, j: int) -> bool {
    exists|k: int| j < k < p.len() && (#[trigger] p[k]).0@ == p[j].0@
}

/// The items of a manifest map: for each id, the entry written last, in
/// the order of the entries.
pub open spec fn live_items_from(p: Seq<(String, ManifestItem)>, i: int) -> Seq<(Seq<char>, Seq<char>, Seq<char>, Seq<char>)>
    decreases p.len() - i,
{
    if i < 0 || i >= p.len() {
        Seq::empty()
    } else if later_has_key(p, i) {
        live_items_from(p, i + 1)
    } else {
        seq![item_view(p[i].1)] + live_items_from(p, i + 1)
    }
}

pub open spec fn sorted_by_path(s: Seq<(Seq<char>, Seq<char>, Seq<char>, Seq<char>)>) -> bool {
    forall|i: int, j: int| 0 <= i < j < s.len() ==> seq_le(#[trigger] s[i].2, #[trigger] s[j].2)
}

pub open spec fn spec_is_asset_view(v: (Seq<char>, Seq<char>, Seq<char>, Seq<char>)) -> bool {
    has_prefix(lowercase(v.1), "image/"@)
        || match spec_extension(v.0) {
            Some(e) => is_image_extension(lowercase(e)),
            None => false,
        }
}

/// One manifest item: an image that the book holds is copied under a
/// fresh name and linked from its path and its href.
pub open spec fn manifest_step(m: AssetMapperView, v: (Seq<char>, Seq<char>, Seq<char>, Seq<char>), entries: Map<Seq<char>, Seq<u8>>) -> AssetMapperView {
    if spec_is_asset_view(v) && entries.contains_key(v.2) {
        spec_record(m, v.2, seq![v.2, v.0], entries[v.2])
    } else {
        m
    }
}

pub open spec fn manifest_fold(m: AssetMapperView, items: Seq<(Seq<char>, Seq<char>, Seq<char>, Seq<char>)>, entries: Map<Seq<char>, Seq<u8>>) -> AssetMapperView
    decreases items.len(),
{
    if items.len() == 0 {
        m
    } else {
        manifest_step(manifest_fold(m, items.drop_last(), entries), items.last(), entries)
    }
}

pub(crate) fn clone_item(i: &ManifestItem) -> (r: ManifestItem)
    ensures
        item_view(r) == item_view(*i),
{
    ManifestItem {
        href: i.href.clone(),
        media_type: i.media_type.clone(),
        absolute_path: i.absolute_path.clone(),
        properties: i.properties.clone(),
    }
}

/// The manifest's items (the last entry of each id).
pub(crate) fn live_items(manifest: &TextMap<ManifestItem>) -> (r: Vec<ManifestItem>)
    ensures
        r@.map_values(|i: ManifestItem| item_view(i)) == live_items_from(manifest.pairs_view(), 0),
        r@.len() <= manifest.pairs_view().len(),
{
    let pairs = manifest.pairs();
    let ghost p = pairs@;
    let mut rev: Vec<ManifestItem> = Vec::new();
    let mut i = pairs.len();
    while i > 0
        invariant
            i <= p.len(),
            p == pairs@,
            rev@.len() <= p.len() - i,
            rev@.map_values(|x: ManifestItem| item_view(x)).reverse() == live_items_from(p, i as int),
        decreases i,
    {
        let j = i - 1;
        let mut later = false;
        let mut k = i;
        while k < pairs.len()
            invariant
                i <= k <= p.len(),
                j == i - 1,
                p == pairs@,
                later == exists|q: int| i <= q < k && (#[trigger] p[q]).0@ == p[j as int].0@,
            decreases p.len() - k,
        {
            if str_eq(pairs[k].0.as_str(), pairs[j].0.as_str()) {
                later = true;
            }
            k += 1;
        }
        assert(later == later_has_key(p, j as int));
        if !later {
            let ghost before = rev@.map_values(|x: ManifestItem| item_view(x));
            let c = clone_item(&pairs[j].1);
            rev.push(c);
            assert(rev@.map_values(|x: ManifestItem| item_view(x)) =~= before.push(item_view(c)));
            assert(before.push(item_view(c)).reverse() =~= seq![item_view(c)] + before.reverse());
        }
        i = j;
    }
    let mut r: Vec<ManifestItem> = Vec::new();
    let ghost rv = rev@.map_values(|x: ManifestItem| item_view(x));
    let mut k = rev.len();
    while k > 0
        invariant
            k <= rev@.len(),
            rv == rev@.map_values(|x: ManifestItem| item_view(x)),
            r@.map_values(|x: ManifestItem| item_view(x)) == rv.reverse().take(rev@.len() - k),
        decreases k,
    {
        let ghost before = r@.map_values(|x: ManifestItem| item_view(x));
        let c = clone_item(&rev[k - 1]);
        r.push(c);
        assert(r@.map_values(|x: ManifestItem| item_view(x)) =~= before.push(item_view(c)));
        assert(rv.reverse().take(rev@.len() - k + 1) =~= rv.reverse().take(rev@.len() - k).push(rv[k - 1]));
        k -= 1;
    }
    assert(rv.reverse().take(rev@.len() as int) =~= rv.reverse());
    r
}

/// The items sorted by path.
fn sort_by_path(items: Vec<ManifestItem>) -> (r: Vec<ManifestItem>)
    ensures
        r@.map_values(|i: ManifestItem| item_view(i)).to_multiset()
            == items@.map_values(|i: ManifestItem| item_view(i)).to_multiset(),
        sorted_by_path(r@.map_values(|i: ManifestItem| item_view(i))),
        r@.len() == items@.len(),
{
    let ghost iv = items@.map_values(|i: ManifestItem| item_view(i));
    let mut sorted: Vec<ManifestItem> = Vec::new();
    let mut n: usize = 0;
    proof {
        assert(sorted@.map_values(|i: ManifestItem| item_view(i)) =~= Seq::empty());
        assert(iv.take(0) =~= Seq::empty());
    }
    while n < items.len()
        invariant
            n <= items@.len(),
            iv == items@.map_values(|i: ManifestItem| item_view(i)),
            sorted@.len() == n,
            sorted@.map_values(|i: ManifestItem| item_view(i)).to_multiset() == iv.take(n as int).to_multiset(),
            sorted_by_path(sorted@.map_values(|i: ManifestItem| item_view(i))),
        decreases items@.len() - n,
    {
        let item = clone_item(&items[n]);
        let key = chars_of(item.absolute_path.as_str());
        let ghost sv = sorted@.map_values(|i: ManifestItem| item_view(i));
        let mut pos: usize = 0;
        while pos < sorted.len() && !chars_lt(&key, &chars_of(sorted[pos].absolute_path.as_str()))
            invariant
                pos <= sorted@.len(),
                sv == sorted@.map_values(|i: ManifestItem| item_view(i)),
                key@ == item_view(item).2,
                forall|q: int| 0 <= q < pos ==> seq_le(#[trigger] sv[q].2, key@),
            decreases sorted@.len() - pos,
        {
            assert(sv[pos as int].2 == sorted@[pos as int].absolute_path@);
            pos += 1;
        }
        proof {
            if pos < sorted@.len() {
                assert(sv[pos as int].2 == sorted@[pos as int].absolute_path@);
                assert(seq_lt(key@, sv[pos as int].2));
            }
        }
        let ghost x = item_view(item);
        sorted.insert(pos, item);
        proof {
            let nv = sorted@.map_values(|i: ManifestItem| item_view(i));
            assert(nv =~= sv.insert(pos as int, x));
            vstd::seq_lib::to_multiset_insert(sv, pos as int, x);
            assert(iv.take(n + 1) =~= iv.take(n as int).push(iv[n as int]));
            vstd::seq_lib::to_multiset_build(iv.take(n as int), iv[n as int]);
            assert forall|a: int, b: int| 0 <= a < b < nv.len() implies seq_le(#[trigger] nv[a].2, #[trigger] nv[b].2) by {
                if b < pos {
                    assert(nv[a] == sv[a] && nv[b] == sv[b]);
                } else if b == pos {
                    assert(nv[a] == sv[a]);
                } else if a < pos {
                    assert(nv[a] == sv[a] && nv[b] == sv[b - 1]);
                    if a < pos {
                        crate::text::lemma_seq_lt_total(sv[b - 1].2, sv[a].2);
                    }
                } else if a == pos {
                    assert(nv[b] == sv[b - 1]);
                    // key < sv[pos] <= sv[b - 1]
                    crate::text::lemma_seq_lt_total(key@, sv[pos as int].2);
                    if b - 1 > pos {
                        lemma_seq_le_transitive(key@, sv[pos as int].2, sv[b - 1].2);
                    }
                } else {
                    assert(nv[a] == sv[a - 1] && nv[b] == sv[b - 1]);
                }
            }
        }
        n += 1;
    }
    assert(iv.take(items@.len() as int) =~= iv);
    sorted
}

impl AssetMapper {
    /// Copies every image of the manifest that the book holds, in the order
    /// of their paths, linked from their paths and hrefs.
    pub fn copy_assets_from_manifest(&mut self, package: &EpubPackage, entries: &TextMap<Vec<u8>>)
        ensures
            exists|order: Seq<(Seq<char>, Seq<char>, Seq<char>, Seq<char>)>|
                order.to_multiset() == live_items_from(package.manifest.pairs_view(), 0).to_multiset()
                && sorted_by_path(order)
                && final(self)@ == manifest_fold(old(self)@, order, entries_view(entries@)),
    {
        let items = sort_by_path(live_items(&package.manifest));
        let ghost order = items@.map_values(|i: ManifestItem| item_view(i));
        let ghost start = self@;
        let ghost start_len = self.used_names@.len();
        let mut i: usize = 0;
        while i < items.len()
            invariant
                i <= items@.len(),
                items@.len() <= package.manifest.pairs_view().len(),
                order == items@.map_values(|i: ManifestItem| item_view(i)),
                start == old(self)@,
                self@ == manifest_fold(start, order.take(i as int), entries_view(entries@)),
            decreases items@.len() - i,
        {
            let ghost t = order.take(i + 1);
            assert(t.drop_last() =~= order.take(i as int));
            assert(t.last() == item_view(items@[i as int]));
            let item = &items[i];
            if is_asset(item) {
                match entries.get(item.absolute_path.as_str()) {
                    Some(bytes) => {
                        let mut keys: Vec<String> = Vec::new();
                        keys.push(item.absolute_path.clone());
                        keys.push(item.href.clone());
                        assert(keys@.map_values(|k: String| k@) =~= seq![item.absolute_path@, item.href@]);
                        let _ = self.record(item.absolute_path.as_str(), &keys, bytes);
                    },
                    None => {},
                }
            }
            i += 1;
        }
        assert(order.take(items@.len() as int) =~= order);
    }
}


proof fn lemma_least_free(base: Seq<char>, tail: Seq<char>, taken: Set<Seq<char>>, k: nat, s0: nat)
    requires
        2 <= k <= s0,
        !taken.contains(suffixed_with(base, s0, tail)),
        forall|t: nat| 2 <= t < k ==> taken.contains(#[trigger] suffixed_with(base, t, tail)),
    ensures
        exists|s: nat| s >= 2 && !taken.contains(suffixed_with(base, s, tail))
            && forall|t: nat| 2 <= t < s ==> taken.contains(#[trigger] suffixed_with(base, t, tail)),
    decreases s0 - k,
{
    if !taken.contains(suffixed_with(base, k, tail)) {
        assert(k >= 2 && !taken.contains(suffixed_with(base, k, tail))
            && forall|t: nat| 2 <= t < k ==> taken.contains(#[trigger] suffixed_with(base, t, tail)));
    } else {
        assert forall|t: nat| 2 <= t < k + 1 implies taken.contains(#[trigger] suffixed_with(base, t, tail)) by {}
        lemma_least_free(base, tail, taken, k + 1, s0);
    }
}

proof fn lemma_free_name_fresh(base: Seq<char>, tail: Seq<char>, taken: Set<Seq<char>>)
    requires
        taken.finite(),
    ensures
        !taken.contains(if !taken.contains(base + tail) { base + tail } else {
            suffixed_with(base, first_free(base, tail, taken), tail)
        }),
{
    if taken.contains(base + tail) {
        lemma_free_exists(base, tail, taken);
        let s0 = choose|s: nat| 2 <= s < taken.len() + 3 && !taken.contains(#[trigger] suffixed_with(base, s, tail));
        lemma_least_free(base, tail, taken, 2, s0);
    }
}

/// The name an asset gets is not taken yet.
pub proof fn lemma_unique_name_fresh(path: Seq<char>, used: Set<Seq<char>>)
    requires
        used.finite(),
    ensures
        !used.contains(spec_unique_name(path, used)),
{
    lemma_free_name_fresh(spec_asset_base(path), spec_ext_tail(path), used);
}

/// Every copied asset lies at `assets/` + a name taken, and no two share
/// a path.
pub open spec fn assets_well_named(m: AssetMapperView) -> bool {
    &&& m.used.finite()
    &&& forall|i: int| 0 <= i < m.assets.len() ==> m.used.contains(#[trigger] asset_name_of(m.assets[i].0))
        && m.assets[i].0 == archive_asset_path(asset_name_of(m.assets[i].0))
        && asset_name_of(m.assets[i].0).len() > 0
    &&& forall|i: int, j: int| 0 <= i < j < m.assets.len() ==> m.assets[i].0 != m.assets[j].0
}

/// An asset's name is never empty.
proof fn lemma_unique_name_nonempty(path: Seq<char>, used: Set<Seq<char>>)
    ensures
        spec_unique_name(path, used).len() > 0,
{
    reveal_strlit("asset");
    let base = spec_asset_base(path);
    assert(base.len() > 0);
    let tail = spec_ext_tail(path);
    if used.contains(base + tail) {
        let n = suffixed_with(base, first_free(base, tail, used), tail);
        assert(n.len() >= base.len());
    }
}

/// The name in an asset path `assets/<name>`.
pub open spec fn asset_name_of(path: Seq<char>) -> Seq<char> {
    path.skip(7)
}

/// Copying an asset keeps the archive's asset paths apart: the new
/// asset gets a name that no earlier asset has.
pub proof fn law_record_keeps_asset_paths_distinct(m: AssetMapperView, path: Seq<char>, keys: Seq<Seq<char>>, bytes: Seq<u8>)
    requires
        assets_well_named(m),
    ensures
        assets_well_named(spec_record(m, path, keys, bytes)),
{
    reveal_strlit("assets/");
    let name = spec_unique_name(path, m.used);
    lemma_unique_name_fresh(path, m.used);
    lemma_unique_name_nonempty(path, m.used);
    let r = spec_record(m, path, keys, bytes);
    let new_path = archive_asset_path(name);
    assert(asset_name_of(new_path) =~= name);
    assert forall|i: int| 0 <= i < r.assets.len() implies r.used.contains(#[trigger] asset_name_of(r.assets[i].0))
        && r.assets[i].0 == archive_asset_path(asset_name_of(r.assets[i].0))
        && asset_name_of(r.assets[i].0).len() > 0 by {
        if i < m.assets.len() {
            assert(r.assets[i] == m.assets[i]);
        }
    }
    assert forall|i: int, j: int| 0 <= i < j < r.assets.len() implies r.assets[i].0 != r.assets[j].0 by {
        if j == m.assets.len() {
            assert(r.assets[i] == m.assets[i]);
            if m.assets[i].0 == new_path {
                assert(asset_name_of(m.assets[i].0) == name);
            }
        } else {
            assert(r.assets[i] == m.assets[i] && r.assets[j] == m.assets[j]);
        }
    }
}

/// A new mapper has no assets, so nothing to collide.
pub proof fn law_new_mapper_is_well_named()
    ensures
        assets_well_named(AssetMapperView { links: Map::empty(), assets: Seq::empty(), used: Set::empty() }),
{
}


/// Copying the manifest's images keeps the asset paths apart.
pub proof fn lemma_manifest_fold_well_named(
    m: AssetMapperView,
    items: Seq<(Seq<char>, Seq<char>, Seq<char>, Seq<char>)>,
    entries: Map<Seq<char>, Seq<u8>>,
)
    requires
        assets_well_named(m),
    ensures
        assets_well_named(manifest_fold(m, items, entries)),
    decreases items.len(),
{
    if items.len() > 0 {
        lemma_manifest_fold_well_named(m, items.drop_last(), entries);
        let prev = manifest_fold(m, items.drop_last(), entries);
        let v = items.last();
        if spec_is_asset_view(v) && entries.contains_key(v.2) {
            law_record_keeps_asset_paths_distinct(prev, v.2, seq![v.2, v.0], entries[v.2]);
        }
    }
}

} // verus!

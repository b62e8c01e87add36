//! The reader's view of a Markdown book archive: entry paths, titles,
//! the README's table of contents, cover images and import names.
use vstd::prelude::*;
use crate::text::{
    strings_view, chars_of, string_of, append_chars, sub_chars, trim, trim_chars, to_lowercase, lowercase, spec_lines, lines_of,
    chars_eq, str_eq, eq_ignore_ascii_case, chars_eq_ignore_ascii_case, seq_lt, seq_le, chars_lt,
};
use crate::paths::{map_backslashes, spec_extension, extension, spec_file_stem, file_stem, spec_file_name, file_name};
use crate::assets::{is_image_extension, is_image_extension_str, contains_seq, has_suffix, has_prefix, contains_str, ends_with_str};
use crate::toc::{find_from, find_chars_from};
use crate::fences::{spec_replace, replace_chars};
use crate::naming::push_decimal;

verus! {

broadcast use vstd::string::group_string_axioms;

/// Leading `./` pieces left out, as `str::trim_start_matches("./")` does.
pub open spec fn trim_dot_slash(s: Seq<char>) -> Seq<char>
    decreases s.len(),
{
    if s.len() >= 2 && s[0] == '.' && s[1] == '/' { trim_dot_slash(s.skip(2)) } else { s }
}

/// An archive entry's name as the reader uses it: backslashes made
/// slashes, leading `./` left out.
pub open spec fn spec_normalize_zip_path(path: Seq<char>) -> Seq<char> {
    trim_dot_slash(map_backslashes(path))
}

pub fn normalize_zip_path(path: &str) -> (r: String)
    ensures
        r@ == spec_normalize_zip_path(path@),
{
    let v = chars_of(path);
    let mut w: Vec<char> = Vec::new();
    let mut i: usize = 0;
    while i < v.len()
        invariant
            i <= v@.len(),
            w@ == map_backslashes(v@).take(i as int),
        decreases v@.len() - i,
    {
        let c = if v[i] == '\\' { '/' } else { v[i] };
        w.push(c);
        assert(map_backslashes(v@).take(i + 1) =~= map_backslashes(v@).take(i as int).push(c));
        i += 1;
    }
    assert(map_backslashes(v@).take(v@.len() as int) =~= map_backslashes(v@));
    let mut start: usize = 0;
    assert(w@.skip(0) =~= w@);
    while w.len() - start >= 2 && w[start] == '.' && w[start + 1] == '/'
        invariant
            start <= w@.len(),
            trim_dot_slash(w@.skip(start as int)) == trim_dot_slash(w@),
        decreases w@.len() - start,
    {
        assert(w@.skip(start as int).skip(2) =~= w@.skip(start + 2));
        start += 2;
    }
    let r = sub_chars(&w, start, w.len());
    assert(r@ =~= w@.skip(start as int));
    string_of(&r)
}

/// A path whose extension is an image's: png, jpg, jpeg, gif, svg or
/// webp, in any case.
pub open spec fn spec_is_image_path(path: Seq<char>) -> bool {
    match spec_extension(path) {
        Some(e) => is_image_extension(lowercase(e)),
        None => false,
    }
}

pub fn is_image_path(path: &str) -> (r: bool)
    ensures
        r == spec_is_image_path(path@),
{
    match extension(path) {
        Some(e) => is_image_extension_str(to_lowercase(string_of(&e).as_str()).as_str()),
        None => false,
    }
}

/// Whether the path's extension is one of `extensions`, in any ASCII
/// case.
pub open spec fn spec_has_extension(path: Seq<char>, extensions: Seq<Seq<char>>) -> bool {
    match spec_extension(path) {
        Some(e) => exists|k: int| 0 <= k < extensions.len() && eq_ignore_ascii_case(e, #[trigger] extensions[k]),
        None => false,
    }
}

pub open spec fn strs_view(v: Seq<&str>) -> Seq<Seq<char>> {
    v.map_values(|s: &str| s@)
}

pub fn has_extension(path: &str, extensions: &[&str]) -> (r: bool)
    ensures
        r == spec_has_extension(path@, strs_view(extensions@)),
{
    let ghost ev = strs_view(extensions@);
    match extension(path) {
        Some(e) => {
            let mut k: usize = 0;
            while k < extensions.len()
                invariant
                    k <= extensions@.len(),
                    ev == strs_view(extensions@),
                    spec_extension(path@) == Some(e@),
                    forall|q: int| 0 <= q < k ==> !eq_ignore_ascii_case(e@, #[trigger] ev[q]),
                decreases extensions@.len() - k,
            {
                assert(ev[k as int] == extensions@[k as int]@);
                if chars_eq_ignore_ascii_case(&e, &chars_of(extensions[k])) {
                    assert(eq_ignore_ascii_case(e@, ev[k as int]));
                    return true;
                }
                k += 1;
            }
            false
        },
        None => false,
    }
}

/// `Ok` when the path has one of the extensions, else the message.
pub fn require_extension(path: &str, extensions: &[&str], message: &str) -> (r: Result<(), String>)
    ensures
        match r {
            Ok(()) => spec_has_extension(path@, strs_view(extensions@)),
            Err(m) => !spec_has_extension(path@, strs_view(extensions@)) && m@ == message@,
        },
{
    if has_extension(path, extensions) {
        Ok(())
    } else {
        Err(string_of(&chars_of(message)))
    }
}

/// An asset whose path (in any case) names a cover, front page or title
/// page.
pub open spec fn spec_is_likely_cover(path: Seq<char>) -> bool {
    let lower = lowercase(path);
    contains_seq(lower, "cover"@) || contains_seq(lower, "front"@) || contains_seq(lower, "title_page"@)
        || contains_seq(lower, "title-page"@) || contains_seq(lower, "titlepage"@)
}

pub fn is_likely_cover_asset_path(path: &str) -> (r: bool)
    ensures
        r == spec_is_likely_cover(path@),
{
    let lower = chars_of(to_lowercase(path).as_str());
    contains_str(&lower, "cover") || contains_str(&lower, "front") || contains_str(&lower, "title_page")
        || contains_str(&lower, "title-page") || contains_str(&lower, "titlepage")
}

/// The least path of `paths` (in the order of `str`) that `keep` accepts.
pub open spec fn least_path(paths: Seq<Seq<char>>, keep: spec_fn(Seq<char>) -> bool) -> Option<Seq<char>>
    decreases paths.len(),
{
    if paths.len() == 0 {
        None
    } else {
        let rest = least_path(paths.drop_last(), keep);
        let p = paths.last();
        if !keep(p) {
            rest
        } else {
            match rest {
                Some(q) => if seq_lt(p, q) { Some(p) } else { Some(q) },
                None => Some(p),
            }
        }
    }
}

pub open spec fn image_path_pred() -> spec_fn(Seq<char>) -> bool {
    |p: Seq<char>| spec_is_image_path(p)
}

pub open spec fn cover_image_pred() -> spec_fn(Seq<char>) -> bool {
    |p: Seq<char>| spec_is_image_path(p) && spec_is_likely_cover(p)
}

/// The cover of a book in the reader: the asset that the metadata names
/// (normalised), when the book has it; else the first image (in path
/// order) that looks like a cover; else the first image.
pub open spec fn spec_choose_cover(assets: Seq<Seq<char>>, metadata_path: Option<Seq<char>>) -> Option<Seq<char>> {
    let named = match metadata_path {
        Some(p) => if assets.contains(spec_normalize_zip_path(p)) { Some(spec_normalize_zip_path(p)) } else { None },
        None => None,
    };
    if named is Some {
        named
    } else if least_path(assets, cover_image_pred()) is Some {
        least_path(assets, cover_image_pred())
    } else {
        least_path(assets, image_path_pred())
    }
}

fn least_path_exec(asset_paths: &[String], covers_only: bool) -> (r: Option<String>)
    ensures
        opt_chars(r) == least_path(strings_view(asset_paths@), if covers_only { cover_image_pred() } else { image_path_pred() }),
{
    let ghost keep = if covers_only { cover_image_pred() } else { image_path_pred() };
    let ghost av = strings_view(asset_paths@);
    let mut best: Option<String> = None;
    let mut k: usize = 0;
    assert(av.take(0) =~= Seq::<Seq<char>>::empty());
    while k < asset_paths.len()
        invariant
            k <= asset_paths@.len(),
            av == strings_view(asset_paths@),
            keep == (if covers_only { cover_image_pred() } else { image_path_pred() }),
            opt_chars(best) == least_path(av.take(k as int), keep),
        decreases asset_paths@.len() - k,
    {
        let ghost t = av.take(k + 1);
        assert(t.drop_last() =~= av.take(k as int));
        let p = &asset_paths[k];
        assert(t.last() == p@);
        let accepted = is_image_path(p.as_str()) && (!covers_only || is_likely_cover_asset_path(p.as_str()));
        if accepted {
            let replace = match &best {
                Some(q) => chars_lt(&chars_of(p.as_str()), &chars_of(q.as_str())),
                None => true,
            };
            if replace {
                best = Some(p.clone());
            }
        }
        k += 1;
    }
    assert(av.take(asset_paths@.len() as int) =~= av);
    best
}

pub open spec fn opt_chars(o: Option<String>) -> Option<Seq<char>> {
    match o {
        Some(s) => Some(s@),
        None => None,
    }
}

pub fn choose_cover_asset_path(asset_paths: &[String], metadata_path: Option<&str>) -> (r: Option<String>)
    ensures
        opt_chars(r) == spec_choose_cover(
            strings_view(asset_paths@),
            match metadata_path { Some(p) => Some(p@), None => None },
        ),
{
    let ghost av = strings_view(asset_paths@);
    match metadata_path {
        Some(p) => {
            let normalized = normalize_zip_path(p);
            let mut k: usize = 0;
            while k < asset_paths.len()
                invariant
                    k <= asset_paths@.len(),
                    av == strings_view(asset_paths@),
                    normalized@ == spec_normalize_zip_path(p@),
                    metadata_path == Some(p),
                    forall|q: int| 0 <= q < k ==> #[trigger] av[q] != normalized@,
                decreases asset_paths@.len() - k,
            {
                assert(av[k as int] == asset_paths@[k as int]@);
                if str_eq(asset_paths[k].as_str(), normalized.as_str()) {
                    assert(av.contains(normalized@));
                    return Some(normalized);
                }
                k += 1;
            }
            assert(!av.contains(normalized@));
        },
        None => {},
    }
    let cover = least_path_exec(asset_paths, true);
    if cover.is_some() {
        return cover;
    }
    least_path_exec(asset_paths, false)
}

/// The first line that starts with `prefix`, without it and trimmed.
pub open spec fn first_with_prefix(lines: Seq<Seq<char>>, prefix: Seq<char>) -> Option<Seq<char>>
    decreases lines.len(),
{
    if lines.len() == 0 {
        None
    } else if has_prefix(lines[0], prefix) {
        Some(trim(lines[0].skip(prefix.len() as int)))
    } else {
        first_with_prefix(lines.drop_first(), prefix)
    }
}

/// The book's title from its README: the first `# ` heading, when it is
/// not empty.
pub open spec fn spec_title_from_readme(readme: Seq<char>) -> Option<Seq<char>> {
    match first_with_prefix(spec_lines(readme), "# "@) {
        Some(t) => if t.len() > 0 { Some(t) } else { None },
        None => None,
    }
}

fn starts_with_str(v: &Vec<char>, p: &str) -> (r: bool)
    ensures
        r == has_prefix(v@, p@),
{
    crate::text::starts_with_chars(v, &chars_of(p))
}

pub fn title_from_readme(readme: &str) -> (r: Option<String>)
    ensures
        opt_chars(r) == spec_title_from_readme(readme@),
{
    proof {
        reveal_strlit("# ");
        assert("# "@ =~= seq!['#', ' ']);
    }
    let lines = lines_of(&chars_of(readme));
    let ghost lv = lines@.map_values(|v: Vec<char>| v@);
    let mut k: usize = 0;
    assert(lv.skip(0) =~= lv);
    while k < lines.len()
        invariant
            k <= lines@.len(),
            lv == lines@.map_values(|v: Vec<char>| v@),
            lv == spec_lines(readme@),
            "# "@ == seq!['#', ' '],
            first_with_prefix(lv.skip(k as int), "# "@) == first_with_prefix(lv, "# "@),
        decreases lines@.len() - k,
    {
        assert(lv.skip(k as int)[0] == lines@[k as int]@);
        if starts_with_str(&lines[k], "# ") {
            let rest = sub_chars(&lines[k], 2, lines[k].len());
            let t = trim_chars(&rest);
            assert(rest@ =~= lines@[k as int]@.skip(2));
            if t.len() == 0 {
                return None;
            }
            return Some(string_of(&t));
        }
        assert(lv.skip(k as int).drop_first() =~= lv.skip(k + 1));
        k += 1;
    }
    assert(lv.skip(k as int) =~= Seq::<Seq<char>>::empty());
    None
}


/// A line of the README that links a chapter: `[title](chapters/….md)`,
/// the title trimmed and not empty, the path before any `#` normalised.
pub open spec fn readme_link(l: Seq<char>) -> Option<(Seq<char>, Seq<char>)> {
    match find_from(l, seq!['['], 0) {
        None => None,
        Some(a) => {
            let ts: int = a as int + 1;
            match find_from(l, seq![']'], ts) {
                None => None,
                Some(te) => match find_from(l, seq![']', '('], te as int) {
                    None => None,
                    Some(b) => {
                        let lp: int = b as int + 2;
                        match find_from(l, seq![')'], lp) {
                            None => None,
                            Some(le) => {
                                let title = trim(l.subrange(ts as int, te as int));
                                let raw = l.subrange(lp as int, le as int);
                                let target = match find_from(raw, seq!['#'], 0) {
                                    Some(h) => raw.take(h as int),
                                    None => raw,
                                };
                                let path = spec_normalize_zip_path(target);
                                if title.len() > 0 && has_prefix(path, "chapters/"@) && has_suffix(path, ".md"@) {
                                    Some((title, path))
                                } else {
                                    None
                                }
                            },
                        }
                    },
                },
            }
        },
    }
}

/// The chapter links of the README's lines, in order.
pub open spec fn readme_links(lines: Seq<Seq<char>>) -> Seq<(Seq<char>, Seq<char>)>
    decreases lines.len(),
{
    if lines.len() == 0 {
        Seq::empty()
    } else {
        let rest = readme_links(lines.drop_last());
        match readme_link(lines.last()) {
            Some(l) => rest.push(l),
            None => rest,
        }
    }
}

pub open spec fn spec_readme_chapter_links(readme: Seq<char>) -> Seq<(Seq<char>, Seq<char>)> {
    readme_links(spec_lines(readme))
}

fn readme_link_exec(l: &Vec<char>) -> (r: Option<(String, String)>)
    ensures
        match r {
            Some((t, p)) => readme_link(l@) == Some((t@, p@)),
            None => readme_link(l@) is None,
        },
{
    proof {
        reveal_strlit("chapters/");
        reveal_strlit(".md");
    }
    let open_bracket = chars_of("[");
    let close_bracket = chars_of("]");
    let link_open = chars_of("](");
    let close_paren = chars_of(")");
    let hash = chars_of("#");
    proof {
        reveal_strlit("[");
        reveal_strlit("]");
        reveal_strlit("](");
        reveal_strlit(")");
        reveal_strlit("#");
    }
    assert(open_bracket@ =~= seq!['[']);
    assert(close_bracket@ =~= seq![']']);
    assert(link_open@ =~= seq![']', '(']);
    assert(close_paren@ =~= seq![')']);
    assert(hash@ =~= seq!['#']);
    let n = l.len();
    let a = match find_chars_from(l, &open_bracket, 0) {
        Some(a) => a,
        None => return None,
    };
    assert(a + 1 <= n);
    let ts = a + 1;
    let te = match find_chars_from(l, &close_bracket, ts) {
        Some(e) => e,
        None => return None,
    };
    let b = match find_chars_from(l, &link_open, te) {
        Some(b) => b,
        None => return None,
    };
    assert(b + 2 <= n);
    let lp = b + 2;
    let le = match find_chars_from(l, &close_paren, lp) {
        Some(e) => e,
        None => return None,
    };
    proof {
        crate::flat_toc::lemma_find_from_some(l@, close_bracket@, ts as int);
        crate::flat_toc::lemma_find_from_some(l@, close_paren@, lp as int);
    }
    let title = trim_chars(&sub_chars(l, ts, te));
    let raw = sub_chars(l, lp, le);
    let target = match find_chars_from(&raw, &hash, 0) {
        Some(h) => sub_chars(&raw, 0, h),
        None => raw,
    };
    assert(raw@ =~= l@.subrange(lp as int, le as int));
    let path = normalize_zip_path(string_of(&target).as_str());
    let pv = chars_of(path.as_str());
    if title.len() > 0 && starts_with_str(&pv, "chapters/") && ends_with_str(&pv, ".md") {
        Some((string_of(&title), path))
    } else {
        None
    }
}

/// The chapter links of the README: each line's `[title](path)` whose
/// path is a chapter, in order.
pub fn readme_chapter_links(readme: &str) -> (r: Vec<(String, String)>)
    ensures
        r@.map_values(|e: (String, String)| (e.0@, e.1@)) == spec_readme_chapter_links(readme@),
{
    let lines = lines_of(&chars_of(readme));
    let ghost lv = lines@.map_values(|v: Vec<char>| v@);
    let mut out: Vec<(String, String)> = Vec::new();
    let mut k: usize = 0;
    assert(out@.map_values(|e: (String, String)| (e.0@, e.1@)) =~= readme_links(lv.take(0)));
    while k < lines.len()
        invariant
            k <= lines@.len(),
            lv == lines@.map_values(|v: Vec<char>| v@),
            out@.map_values(|e: (String, String)| (e.0@, e.1@)) == readme_links(lv.take(k as int)),
        decreases lines@.len() - k,
    {
        let ghost t = lv.take(k + 1);
        assert(t.drop_last() =~= lv.take(k as int));
        assert(t.last() == lines@[k as int]@);
        let ghost before = out@.map_values(|e: (String, String)| (e.0@, e.1@));
        match readme_link_exec(&lines[k]) {
            Some(e) => {
                let ghost ev = (e.0@, e.1@);
                out.push(e);
                assert(out@.map_values(|e: (String, String)| (e.0@, e.1@)) =~= before.push(ev));
            },
            None => {},
        }
        k += 1;
    }
    assert(lv.take(lines@.len() as int) =~= lv);
    out
}

pub open spec fn is_markup_char(c: char) -> bool {
    c == '*' || c == '`' || c == '#'
}

pub open spec fn drop_markup(s: Seq<char>) -> Seq<char>
    decreases s.len(),
{
    if s.len() == 0 {
        s
    } else if is_markup_char(s.last()) {
        drop_markup(s.drop_last())
    } else {
        drop_markup(s.drop_last()).push(s.last())
    }
}

/// A heading's text without Markdown emphasis, code and heading marks,
/// and with escaped brackets unescaped.
pub open spec fn spec_strip_inline_markdown(s: Seq<char>) -> Seq<char> {
    spec_replace(spec_replace(drop_markup(s), seq!['\\', '['], seq!['[']), seq!['\\', ']'], seq![']'])
}

pub fn strip_inline_markdown(input: &str) -> (r: String)
    ensures
        r@ == spec_strip_inline_markdown(input@),
{
    let v = chars_of(input);
    let mut w: Vec<char> = Vec::new();
    let mut i: usize = 0;
    while i < v.len()
        invariant
            i <= v@.len(),
            w@ == drop_markup(v@.take(i as int)),
        decreases v@.len() - i,
    {
        assert(v@.take(i + 1).drop_last() =~= v@.take(i as int));
        let c = v[i];
        if !(c == '*' || c == '`' || c == '#') {
            w.push(c);
        }
        i += 1;
    }
    assert(v@.take(v@.len() as int) =~= v@);
    let open_pat = chars_of("\\[");
    let close_pat = chars_of("\\]");
    let open_rep = chars_of("[");
    let close_rep = chars_of("]");
    proof {
        reveal_strlit("\\[");
        reveal_strlit("\\]");
        reveal_strlit("[");
        reveal_strlit("]");
    }
    assert(open_pat@ =~= seq!['\\', '[']);
    assert(close_pat@ =~= seq!['\\', ']']);
    assert(open_rep@ =~= seq!['[']);
    assert(close_rep@ =~= seq![']']);
    let a = replace_chars(&w, &open_pat, &open_rep);
    let b = replace_chars(&a, &close_pat, &close_rep);
    string_of(&b)
}

/// The first line that is a `# ` or `## ` heading: its text, trimmed.
pub open spec fn first_heading_text(lines: Seq<Seq<char>>) -> Option<Seq<char>>
    decreases lines.len(),
{
    if lines.len() == 0 {
        None
    } else if has_prefix(lines[0], "# "@) {
        Some(trim(lines[0].skip(2)))
    } else if has_prefix(lines[0], "## "@) {
        Some(trim(lines[0].skip(3)))
    } else {
        first_heading_text(lines.drop_first())
    }
}

pub open spec fn is_number_mark(c: char) -> bool {
    ('0' <= c && c <= '9') || c == '-' || c == '_'
}

pub open spec fn trim_number_marks(s: Seq<char>) -> Seq<char>
    decreases s.len(),
{
    if s.len() > 0 && is_number_mark(s[0]) { trim_number_marks(s.drop_first()) } else { s }
}

/// A chapter's title in the reader: its first heading without inline
/// markup; else its file stem without the leading number.
pub open spec fn spec_reader_chapter_title(markdown: Seq<char>, path: Seq<char>) -> Seq<char> {
    match first_heading_text(spec_lines(markdown)) {
        Some(t) => if t.len() > 0 {
            spec_strip_inline_markdown(t)
        } else {
            trim_number_marks(match spec_file_stem(path) { Some(s) => s, None => path })
        },
        None => trim_number_marks(match spec_file_stem(path) { Some(s) => s, None => path }),
    }
}

pub fn chapter_title(markdown: &str, path: &str) -> (r: String)
    ensures
        r@ == spec_reader_chapter_title(markdown@, path@),
{
    proof {
        reveal_strlit("# ");
        reveal_strlit("## ");
        assert("# "@ =~= seq!['#', ' ']);
        assert("## "@ =~= seq!['#', '#', ' ']);
    }
    let lines = lines_of(&chars_of(markdown));
    let ghost lv = lines@.map_values(|v: Vec<char>| v@);
    let mut k: usize = 0;
    let mut found: Option<Vec<char>> = None;
    assert(lv.skip(0) =~= lv);
    while k < lines.len() && found.is_none()
        invariant
            k <= lines@.len(),
            lv == lines@.map_values(|v: Vec<char>| v@),
            "# "@ == seq!['#', ' '],
            "## "@ == seq!['#', '#', ' '],
            found is None ==> first_heading_text(lv.skip(k as int)) == first_heading_text(lv),
            found matches Some(f) ==> first_heading_text(lv) == Some(f@),
        decreases lines@.len() - k,
    {
        assert(lv.skip(k as int)[0] == lines@[k as int]@);
        if starts_with_str(&lines[k], "# ") {
            let rest = sub_chars(&lines[k], 2, lines[k].len());
            assert(rest@ =~= lines@[k as int]@.skip(2));
            found = Some(trim_chars(&rest));
        } else if starts_with_str(&lines[k], "## ") {
            let rest = sub_chars(&lines[k], 3, lines[k].len());
            assert(rest@ =~= lines@[k as int]@.skip(3));
            found = Some(trim_chars(&rest));
        } else {
            assert(lv.skip(k as int).drop_first() =~= lv.skip(k + 1));
        }
        k += 1;
    }
    if found.is_none() {
        assert(lv.skip(k as int) =~= Seq::<Seq<char>>::empty());
    }
    match found {
        Some(t) => {
            if t.len() > 0 {
                return strip_inline_markdown(string_of(&t).as_str());
            }
        },
        None => {},
    }
    let base = match file_stem(path) {
        Some(s) => s,
        None => chars_of(path),
    };
    let mut i: usize = 0;
    assert(base@.skip(0) =~= base@);
    while i < base.len() && (('0' <= base[i] && base[i] <= '9') || base[i] == '-' || base[i] == '_')
        invariant
            i <= base@.len(),
            trim_number_marks(base@.skip(i as int)) == trim_number_marks(base@),
        decreases base@.len() - i,
    {
        assert(base@.skip(i as int).drop_first() =~= base@.skip(i + 1));
        i += 1;
    }
    let r = sub_chars(&base, i, base.len());
    assert(r@ =~= base@.skip(i as int));
    string_of(&r)
}

} // verus!

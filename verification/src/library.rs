//! The reader's library: names of imported books, confinement of paths
//! to the library's folders, the entries of the book list, and the
//! system's colour scheme.
use vstd::prelude::*;
use vstd::utf8::{valid_utf8, decode_utf8};
use crate::text::{chars_of, string_of, append_chars, sub_chars, trim, trim_chars, ascii_lower, ascii_lower_char, seq_lt, chars_lt, to_lowercase, lowercase};
use crate::paths::{split_on, split_chars, spec_file_stem, file_stem, spec_file_name, file_name};
use crate::naming::{decimal, push_decimal, trim_start_by, trim_end_by};

verus! {

broadcast use vstd::string::group_string_axioms;

/// What `char::is_alphanumeric` answers: whether the character is
/// Unicode Alphabetic or Numeric.
pub uninterp spec fn alphanumeric(c: char) -> bool;

/// `char::is_alphanumeric` from std.  Its result is named, not stated.
#[verifier::external_body]
fn is_alphanumeric(c: char) -> (r: bool)
    ensures
        r == alphanumeric(c),
{
    c.is_alphanumeric()
}

/// Characters a book's file stem keeps.
pub open spec fn is_stem_safe(c: char) -> bool {
    alphanumeric(c) || c == '-' || c == '_' || c == '.'
}

/// The stem with each run of unsafe characters replaced by one `-`, and
/// whether the last character written stands for such a run.
pub open spec fn stem_scan(s: Seq<char>) -> (Seq<char>, bool)
    decreases s.len(),
{
    if s.len() == 0 {
        (Seq::empty(), false)
    } else {
        let (v, last_was_dash) = stem_scan(s.drop_last());
        let c = s.last();
        if is_stem_safe(c) {
            (v.push(c), false)
        } else if !last_was_dash {
            (v.push('-'), true)
        } else {
            (v, true)
        }
    }
}

pub open spec fn is_dash_or_dot(c: char) -> bool {
    c == '-' || c == '.'
}

pub open spec fn dash_or_dot() -> spec_fn(char) -> bool {
    |c: char| is_dash_or_dot(c)
}

/// A file stem that is safe in the library: unsafe runs become `-`,
/// `-` and `.` are trimmed from both ends, and an empty result is `book`.
pub open spec fn spec_sanitize_file_stem(input: Seq<char>) -> Seq<char> {
    let v = trim_end_by(trim_start_by(stem_scan(input).0, dash_or_dot()), dash_or_dot());
    if v.len() == 0 { "book"@ } else { v }
}

pub fn sanitize_file_stem(input: &str) -> (r: String)
    ensures
        r@ == spec_sanitize_file_stem(input@),
{
    let v = chars_of(input);
    let mut value: Vec<char> = Vec::new();
    let mut last_was_dash = false;
    let mut i: usize = 0;
    while i < v.len()
        invariant
            i <= v@.len(),
            (value@, last_was_dash) == stem_scan(v@.take(i as int)),
        decreases v@.len() - i,
    {
        assert(v@.take(i + 1).drop_last() =~= v@.take(i as int));
        let c = v[i];
        let safe = is_alphanumeric(c) || c == '-' || c == '_' || c == '.';
        if safe {
            value.push(c);
            last_was_dash = false;
        } else if !last_was_dash {
            value.push('-');
            last_was_dash = true;
        }
        i += 1;
    }
    assert(v@.take(v@.len() as int) =~= v@);
    let mut start: usize = 0;
    assert(value@.skip(0) =~= value@);
    while start < value.len() && (value[start] == '-' || value[start] == '.')
        invariant
            start <= value@.len(),
            trim_start_by(value@.skip(start as int), dash_or_dot()) == trim_start_by(value@, dash_or_dot()),
        decreases value@.len() - start,
    {
        assert(value@.skip(start as int).drop_first() =~= value@.skip(start + 1));
        start += 1;
    }
    let front = sub_chars(&value, start, value.len());
    assert(front@ =~= value@.skip(start as int));
    let mut end = front.len();
    assert(front@.take(end as int) =~= front@);
    while end > 0 && (front[end - 1] == '-' || front[end - 1] == '.')
        invariant
            end <= front@.len(),
            trim_end_by(front@.take(end as int), dash_or_dot()) == trim_end_by(front@, dash_or_dot()),
        decreases end,
    {
        assert(front@.take(end as int).drop_last() =~= front@.take(end - 1));
        end -= 1;
    }
    let trimmed = sub_chars(&front, 0, end);
    assert(trimmed@ =~= front@.take(end as int));
    if trimmed.len() == 0 {
        proof { reveal_strlit("book"); }
        string_of(&chars_of("book"))
    } else {
        string_of(&trimmed)
    }
}

/// The stem of an imported book's file: the EPUB's file stem (`book`
/// when it has none or it is blank), made safe.
pub open spec fn spec_import_stem(epub_path: Seq<char>) -> Seq<char> {
    let raw = match spec_file_stem(epub_path) {
        Some(s) => if trim(s).len() > 0 { s } else { "book"@ },
        None => "book"@,
    };
    spec_sanitize_file_stem(raw)
}

pub fn import_stem(epub_path: &str) -> (r: String)
    ensures
        r@ == spec_import_stem(epub_path@),
{
    proof { reveal_strlit("book"); }
    match file_stem(epub_path) {
        Some(s) => {
            if trim_chars(&s).len() > 0 {
                sanitize_file_stem(string_of(&s).as_str())
            } else {
                sanitize_file_stem("book")
            }
        },
        None => sanitize_file_stem("book"),
    }
}

/// The file name of the `index`-th attempt at importing a book with
/// stem `stem`: `stem.zmd` first, then `stem-2.zmd`, `stem-3.zmd`, ….
pub open spec fn spec_import_file_name(stem: Seq<char>, index: nat) -> Seq<char> {
    if index <= 1 { stem + ".zmd"@ } else { stem + "-"@ + decimal(index) + ".zmd"@ }
}

pub fn import_file_name(stem: &str, index: usize) -> (r: String)
    ensures
        r@ == spec_import_file_name(stem@, index as nat),
{
    proof {
        reveal_strlit(".zmd");
        reveal_strlit("-");
    }
    let mut out = chars_of(stem);
    if index > 1 {
        append_chars(&mut out, &chars_of("-"));
        push_decimal(&mut out, index);
    }
    append_chars(&mut out, &chars_of(".zmd"));
    string_of(&out)
}

/// The component that stands for the root directory.
pub open spec fn root_component() -> Seq<char> {
    seq!['/']
}

pub open spec fn normal_parts(parts: Seq<Seq<char>>) -> Seq<Seq<char>>
    decreases parts.len(),
{
    if parts.len() == 0 {
        Seq::empty()
    } else {
        let rest = normal_parts(parts.drop_last());
        let p = parts.last();
        if p.len() == 0 || p == seq!['.'] { rest } else { rest.push(p) }
    }
}

/// The components of a `/`-separated path as `Path::components` gives
/// them: the root, a leading `.` of a relative path, then the parts
/// other than empty ones and `.`.
pub open spec fn path_components(s: Seq<char>) -> Seq<Seq<char>> {
    let parts = split_on(s, '/');
    let lead = if s.len() > 0 && s[0] == '/' {
        seq![root_component()]
    } else if parts[0] == seq!['.'] {
        seq![seq!['.']]
    } else {
        Seq::empty()
    };
    lead + normal_parts(parts)
}

/// `Path::starts_with`: the components of `root` begin those of `path`.
pub open spec fn spec_is_inside(path: Seq<char>, root: Seq<char>) -> bool {
    let p = path_components(path);
    let r = path_components(root);
    r.len() <= p.len() && p.take(r.len() as int) == r
}

#[verifier::rlimit(30)]
fn components(s: &str) -> (r: Vec<Vec<char>>)
    ensures
        r@.map_values(|v: Vec<char>| v@) == path_components(s@),
{
    let v = chars_of(s);
    let parts = split_chars(&v, '/');
    let ghost pv = parts@.map_values(|x: Vec<char>| x@);
    let mut out: Vec<Vec<char>> = Vec::new();
    let dot = vec!['.'];
    assert(dot@ =~= seq!['.']);
    assert(pv[0] == parts@[0]@);
    if v.len() > 0 && v[0] == '/' {
        let root = vec!['/'];
        assert(root@ =~= root_component());
        out.push(root);
    } else if crate::text::chars_eq(&parts[0], &dot) {
        out.push(vec!['.']);
        assert(out@[0]@ =~= seq!['.']);
    }
    let ghost lead = out@.map_values(|x: Vec<char>| x@);
    let mut i: usize = 0;
    assert(out@.map_values(|x: Vec<char>| x@) =~= lead + normal_parts(pv.take(0)));
    while i < parts.len()
        invariant
            i <= parts@.len(),
            pv == parts@.map_values(|x: Vec<char>| x@),
            dot@ == seq!['.'],
            out@.map_values(|x: Vec<char>| x@) == lead + normal_parts(pv.take(i as int)),
        decreases parts@.len() - i,
    {
        let ghost t = pv.take(i + 1);
        assert(t.drop_last() =~= pv.take(i as int));
        assert(t.last() == parts@[i as int]@);
        if parts[i].len() > 0 && !crate::text::chars_eq(&parts[i], &dot) {
            let ghost before = out@.map_values(|x: Vec<char>| x@);
            let piece = sub_chars(&parts[i], 0, parts[i].len());
            assert(piece@ =~= parts@[i as int]@);
            out.push(piece);
            assert(out@.map_values(|x: Vec<char>| x@) =~= before.push(parts@[i as int]@));
        }
        i += 1;
    }
    assert(pv.take(parts@.len() as int) =~= pv);
    out
}

/// Whether `path` lies inside `root`, component by component.
pub fn is_inside(path: &str, root: &str) -> (r: bool)
    ensures
        r == spec_is_inside(path@, root@),
{
    let p = components(path);
    let r = components(root);
    let ghost pv = p@.map_values(|x: Vec<char>| x@);
    let ghost rv = r@.map_values(|x: Vec<char>| x@);
    if r.len() > p.len() {
        return false;
    }
    let mut k: usize = 0;
    while k < r.len()
        invariant
            k <= r@.len() <= p@.len(),
            pv == p@.map_values(|x: Vec<char>| x@),
            rv == r@.map_values(|x: Vec<char>| x@),
            pv == path_components(path@),
            rv == path_components(root@),
            forall|q: int| 0 <= q < k ==> #[trigger] pv[q] == rv[q],
        decreases r@.len() - k,
    {
        if !crate::text::chars_eq(&p[k], &r[k]) {
            assert(pv[k as int] != rv[k as int]);
            assert(pv.take(rv.len() as int)[k as int] != rv[k as int]);
            return false;
        }
        k += 1;
    }
    assert(pv.take(rv.len() as int) =~= rv);
    true
}

/// A book of the library as the book list shows it.
pub struct LibraryBook {
    pub path: String,
    pub file_name: String,
    pub title: String,
    pub chapter_count: usize,
    pub progress_chapter_path: Option<String>,
    pub reading_progress_percent: Option<u8>,
    pub completed: bool,
    pub modified_ms: u64,
    pub cover_image: Option<String>,
    pub chapter_paths: Vec<String>,
}

/// The list entry of a book that could not be read: its file name, its
/// stem as title, and nothing else known.
pub open spec fn fallback_book_ok(b: LibraryBook, path: Seq<char>, modified_ms: u64) -> bool {
    let name = match spec_file_name(path) {
        Some(n) => n,
        None => "book.zmd"@,
    };
    &&& b.path@ == path
    &&& b.file_name@ == name
    &&& b.title@ == match spec_file_stem(path) {
        Some(s) => s,
        None => name,
    }
    &&& b.chapter_count == 0
    &&& b.progress_chapter_path is None
    &&& b.reading_progress_percent is None
    &&& !b.completed
    &&& b.modified_ms == modified_ms
    &&& b.cover_image is None
    &&& b.chapter_paths@.len() == 0
}

pub fn fallback_library_book(path: &str, modified_ms: u64) -> (r: LibraryBook)
    ensures
        fallback_book_ok(r, path@, modified_ms),
{
    proof { reveal_strlit("book.zmd"); }
    let name = match file_name(path) {
        Some(n) => n,
        None => chars_of("book.zmd"),
    };
    let title = match file_stem(path) {
        Some(s) => s,
        None => {
            let c = sub_chars(&name, 0, name.len());
            assert(c@ =~= name@);
            c
        },
    };
    LibraryBook {
        path: string_of(&chars_of(path)),
        file_name: string_of(&name),
        title: string_of(&title),
        chapter_count: 0,
        progress_chapter_path: None,
        reading_progress_percent: None,
        completed: false,
        modified_ms,
        cover_image: None,
        chapter_paths: Vec::new(),
    }
}

/// The system's colour scheme and where the answer came from.
pub struct SystemAppearance {
    pub color_mode: String,
    pub source: String,
}

pub fn appearance_from_dark_flag(is_dark: bool, source: &str) -> (r: SystemAppearance)
    ensures
        r.color_mode@ == (if is_dark { "dark"@ } else { "daylight"@ }),
        r.source@ == source@,
{
    let mode = if is_dark { "dark" } else { "daylight" };
    SystemAppearance { color_mode: string_of(&chars_of(mode)), source: string_of(&chars_of(source)) }
}

/// What `String::from_utf8_lossy` gives for the bytes.
pub uninterp spec fn lossy_text(bytes: Seq<u8>) -> Seq<char>;

/// `String::from_utf8_lossy` from std: the text of the bytes, each
/// invalid sequence replaced by U+FFFD.  The documentation gives that
/// valid UTF-8 comes back unchanged; the rest is named.
#[verifier::external_body]
fn utf8_lossy(bytes: &[u8]) -> (r: String)
    ensures
        r@ == lossy_text(bytes@),
        valid_utf8(bytes@) ==> r@ == decode_utf8(bytes@),
{
    String::from_utf8_lossy(bytes).into_owned()
}

pub open spec fn ascii_lowercase(s: Seq<char>) -> Seq<char> {
    s.map_values(|c: char| ascii_lower(c))
}

/// A command's answer to a yes-or-no question: `true` or `false` in any
/// ASCII case, around whitespace.
pub open spec fn spec_parse_bool_output(bytes: Seq<u8>) -> Option<bool> {
    let word = ascii_lowercase(trim(lossy_text(bytes)));
    if word == "true"@ {
        Some(true)
    } else if word == "false"@ {
        Some(false)
    } else {
        None
    }
}

pub fn parse_bool_command_output(output: &[u8]) -> (r: Option<bool>)
    ensures
        r == spec_parse_bool_output(output@),
{
    let text = utf8_lossy(output);
    let t = trim_chars(&chars_of(text.as_str()));
    let mut w: Vec<char> = Vec::new();
    let mut i: usize = 0;
    while i < t.len()
        invariant
            i <= t@.len(),
            w@ == ascii_lowercase(t@).take(i as int),
        decreases t@.len() - i,
    {
        let c = ascii_lower_char(t[i]);
        w.push(c);
        assert(ascii_lowercase(t@).take(i + 1) =~= ascii_lowercase(t@).take(i as int).push(c));
        i += 1;
    }
    assert(ascii_lowercase(t@).take(t@.len() as int) =~= ascii_lowercase(t@));
    proof {
        reveal_strlit("true");
        reveal_strlit("false");
    }
    if crate::text::chars_eq(&w, &chars_of("true")) {
        Some(true)
    } else if crate::text::chars_eq(&w, &chars_of("false")) {
        Some(false)
    } else {
        None
    }
}


/// Whether the entry keyed `a` is listed strictly before the one keyed
/// `b`: the larger number first, then the smaller text.
pub open spec fn key_before(a: (u64, Seq<char>), b: (u64, Seq<char>)) -> bool {
    a.0 > b.0 || (a.0 == b.0 && seq_lt(a.1, b.1))
}

/// `order` lists the positions of `keys` once each, sorted by
/// `key_before`, ties in their first order.
pub open spec fn is_stable_order_by(keys: Seq<(u64, Seq<char>)>, order: Seq<int>) -> bool {
    &&& order.len() == keys.len()
    &&& forall|k: int| 0 <= k < order.len() ==> 0 <= #[trigger] order[k] < keys.len()
    &&& forall|k: int, l: int| 0 <= k < l < order.len() ==> order[k] != order[l]
    &&& forall|k: int, l: int| 0 <= k < l < order.len() ==> !key_before(keys[order[l]], keys[order[k]])
    &&& forall|k: int, l: int| 0 <= k < l < order.len() && !key_before(keys[order[k]], keys[order[l]])
        ==> order[k] < order[l]
}

proof fn lemma_key_facts(a: (u64, Seq<char>), b: (u64, Seq<char>), c: (u64, Seq<char>))
    ensures
        !key_before(a, a),
        key_before(a, b) ==> !key_before(b, a),
        key_before(a, b) && !key_before(c, b) ==> key_before(a, c),
{
    crate::text::lemma_seq_lt_total(a.1, b.1);
    crate::text::lemma_seq_lt_total(b.1, c.1);
    crate::text::lemma_seq_lt_total(a.1, c.1);
    crate::text::lemma_seq_lt_total(a.1, a.1);
    if seq_lt(a.1, b.1) && seq_lt(b.1, c.1) {
        crate::text::lemma_seq_lt_transitive(a.1, b.1, c.1);
    }
}

pub open spec fn key_views(keys: Seq<(u64, Vec<char>)>) -> Seq<(u64, Seq<char>)> {
    keys.map_values(|k: (u64, Vec<char>)| (k.0, k.1@))
}

pub open spec fn usize_ints(v: Seq<usize>) -> Seq<int> {
    v.map_values(|x: usize| x as int)
}

fn key_before_exec(a: &(u64, Vec<char>), b: &(u64, Vec<char>)) -> (r: bool)
    ensures
        r == key_before((a.0, a.1@), (b.0, b.1@)),
{
    a.0 > b.0 || (a.0 == b.0 && chars_lt(&a.1, &b.1))
}

/// The stable order of the keys: by number, larger first, then by text.
pub fn stable_order_by(keys: &Vec<(u64, Vec<char>)>) -> (r: Vec<usize>)
    ensures
        is_stable_order_by(key_views(keys@), usize_ints(r@)),
{
    let ghost kv = key_views(keys@);
    let mut order: Vec<usize> = Vec::new();
    let mut n: usize = 0;
    while n < keys.len()
        invariant
            n <= keys@.len(),
            kv == key_views(keys@),
            order@.len() == n,
            forall|k: int| 0 <= k < n ==> #[trigger] order@[k] < n,
            forall|k: int, l: int| 0 <= k < l < n ==> order@[k] != order@[l],
            forall|k: int, l: int| 0 <= k < l < n ==> !key_before(kv[order@[l] as int], kv[order@[k] as int]),
            forall|k: int, l: int| 0 <= k < l < n && !key_before(kv[order@[k] as int], kv[order@[l] as int])
                ==> order@[k] < order@[l],
        decreases keys@.len() - n,
    {
        let mut pos: usize = 0;
        let mut found = false;
        while pos < order.len() && !found
            invariant
                pos <= order@.len() == n,
                n < keys@.len(),
                kv == key_views(keys@),
                forall|k: int| 0 <= k < n ==> #[trigger] order@[k] < n,
                !found ==> forall|k: int| 0 <= k < pos ==> !key_before(kv[n as int], #[trigger] kv[order@[k] as int]),
                found ==> pos > 0 && (forall|k: int| 0 <= k < pos - 1 ==> !key_before(kv[n as int], #[trigger] kv[order@[k] as int]))
                    && key_before(kv[n as int], kv[order@[pos - 1] as int]),
            decreases order@.len() - pos + (if found { 0int } else { 1int }),
        {
            let j = order[pos];
            if key_before_exec(&keys[n], &keys[j]) {
                found = true;
            }
            pos += 1;
        }
        let at = if found { pos - 1 } else { pos };
        proof {
            assert forall|k: int| at <= k < n implies key_before(kv[n as int], #[trigger] kv[order@[k] as int]) by {
                if k > at {
                    lemma_key_facts(kv[n as int], kv[order@[at as int] as int], kv[order@[k] as int]);
                }
            }
        }
        let ghost before = order@;
        order.insert(at, n);
        proof {
            assert forall|k: int| 0 <= k < n + 1 implies #[trigger] order@[k] < n + 1 by {
                if k < at {
                    assert(order@[k] == before[k]);
                } else if k > at {
                    assert(order@[k] == before[k - 1]);
                }
            }
            assert forall|k: int, l: int| 0 <= k < l < n + 1 implies order@[k] != order@[l] by {
                if k < at && l < at {
                    assert(order@[k] == before[k] && order@[l] == before[l]);
                } else if k < at && l == at {
                    assert(order@[k] == before[k]);
                } else if k < at {
                    assert(order@[k] == before[k] && order@[l] == before[l - 1]);
                } else if k == at {
                    assert(order@[l] == before[l - 1]);
                } else {
                    assert(order@[k] == before[k - 1] && order@[l] == before[l - 1]);
                }
            }
            assert forall|k: int, l: int| 0 <= k < l < n + 1 implies !key_before(kv[order@[l] as int], kv[order@[k] as int]) by {
                if k < at && l < at {
                    assert(order@[k] == before[k] && order@[l] == before[l]);
                } else if k < at && l == at {
                    assert(order@[k] == before[k]);
                } else if k < at {
                    assert(order@[k] == before[k] && order@[l] == before[l - 1]);
                } else if k == at {
                    assert(order@[l] == before[l - 1]);
                    lemma_key_facts(kv[n as int], kv[before[l - 1] as int], kv[n as int]);
                } else {
                    assert(order@[k] == before[k - 1] && order@[l] == before[l - 1]);
                }
            }
            assert forall|k: int, l: int| 0 <= k < l < n + 1 && !key_before(kv[order@[k] as int], kv[order@[l] as int])
                implies order@[k] < order@[l] by {
                if k < at && l < at {
                    assert(order@[k] == before[k] && order@[l] == before[l]);
                } else if k < at && l == at {
                    assert(order@[k] == before[k]);
                } else if k < at {
                    assert(order@[k] == before[k] && order@[l] == before[l - 1]);
                } else if k == at {
                    assert(order@[l] == before[l - 1]);
                } else {
                    assert(order@[k] == before[k - 1] && order@[l] == before[l - 1]);
                }
            }
        }
        n += 1;
    }
    proof {
        let ov = usize_ints(order@);
        assert forall|k: int| 0 <= k < ov.len() implies 0 <= #[trigger] ov[k] < kv.len() by {
            assert(ov[k] == order@[k] as int);
        }
        assert forall|k: int, l: int| 0 <= k < l < ov.len() implies ov[k] != ov[l] by {
            assert(ov[k] == order@[k] as int && ov[l] == order@[l] as int);
        }
        assert forall|k: int, l: int| 0 <= k < l < ov.len() implies !key_before(kv[ov[l]], kv[ov[k]]) by {
            assert(ov[k] == order@[k] as int && ov[l] == order@[l] as int);
        }
        assert forall|k: int, l: int| 0 <= k < l < ov.len() && !key_before(kv[ov[k]], kv[ov[l]])
            implies ov[k] < ov[l] by {
            assert(ov[k] == order@[k] as int && ov[l] == order@[l] as int);
        }
    }
    order
}

/// The book list's order: the most recently changed first, then by
/// title in lower case.
pub open spec fn book_key(b: LibraryBook) -> (u64, Seq<char>) {
    (b.modified_ms, lowercase(b.title@))
}

pub open spec fn book_keys(v: Seq<LibraryBook>) -> Seq<(u64, Seq<char>)> {
    v.map_values(|b: LibraryBook| book_key(b))
}

pub type BookView = (Seq<char>, Seq<char>, Seq<char>, usize, Option<Seq<char>>, Option<u8>, bool, u64, Option<Seq<char>>, Seq<Seq<char>>);

pub open spec fn opt_text(o: Option<String>) -> Option<Seq<char>> {
    match o {
        Some(s) => Some(s@),
        None => None,
    }
}

pub open spec fn book_view(b: LibraryBook) -> BookView {
    (
        b.path@, b.file_name@, b.title@, b.chapter_count, opt_text(b.progress_chapter_path),
        b.reading_progress_percent, b.completed, b.modified_ms, opt_text(b.cover_image),
        b.chapter_paths@.map_values(|s: String| s@),
    )
}

fn clone_text(o: &Option<String>) -> (r: Option<String>)
    ensures
        opt_text(r) == opt_text(*o),
{
    match o {
        Some(s) => Some(s.clone()),
        None => None,
    }
}

fn clone_book(b: &LibraryBook) -> (r: LibraryBook)
    ensures
        book_view(r) == book_view(*b),
{
    let mut paths: Vec<String> = Vec::new();
    let mut i: usize = 0;
    while i < b.chapter_paths.len()
        invariant
            i <= b.chapter_paths@.len(),
            paths@.map_values(|s: String| s@) == b.chapter_paths@.map_values(|s: String| s@).take(i as int),
        decreases b.chapter_paths@.len() - i,
    {
        let ghost before = paths@.map_values(|s: String| s@);
        let c = b.chapter_paths[i].clone();
        paths.push(c);
        assert(paths@.map_values(|s: String| s@) =~= before.push(c@));
        assert(b.chapter_paths@.map_values(|s: String| s@).take(i + 1)
            =~= b.chapter_paths@.map_values(|s: String| s@).take(i as int).push(b.chapter_paths@[i as int]@));
        i += 1;
    }
    assert(b.chapter_paths@.map_values(|s: String| s@).take(b.chapter_paths@.len() as int)
        =~= b.chapter_paths@.map_values(|s: String| s@));
    LibraryBook {
        path: b.path.clone(),
        file_name: b.file_name.clone(),
        title: b.title.clone(),
        chapter_count: b.chapter_count,
        progress_chapter_path: clone_text(&b.progress_chapter_path),
        reading_progress_percent: b.reading_progress_percent,
        completed: b.completed,
        modified_ms: b.modified_ms,
        cover_image: clone_text(&b.cover_image),
        chapter_paths: paths,
    }
}

/// Sorts the book list: the most recently changed book first, then by
/// title in lower case, ties kept in the order given.
pub fn sort_library_books(books: &Vec<LibraryBook>) -> (r: Vec<LibraryBook>)
    ensures
        exists|order: Seq<int>| #[trigger] is_stable_order_by(book_keys(books@), order)
            && r@.len() == books@.len()
            && forall|k: int| 0 <= k < r@.len() ==> #[trigger] book_view(r@[k]) == book_view(books@[order[k]]),
{
    let mut keys: Vec<(u64, Vec<char>)> = Vec::new();
    let mut i: usize = 0;
    while i < books.len()
        invariant
            i <= books@.len(),
            keys@.len() == i,
            forall|q: int| 0 <= q < i ==> #[trigger] key_views(keys@)[q] == book_key(books@[q]),
        decreases books@.len() - i,
    {
        let ghost before = key_views(keys@);
        let k = (books[i].modified_ms, chars_of(to_lowercase(books[i].title.as_str()).as_str()));
        keys.push(k);
        assert(key_views(keys@) =~= before.push((k.0, k.1@)));
        i += 1;
    }
    assert(key_views(keys@) =~= book_keys(books@));
    let order = stable_order_by(&keys);
    let ghost ov = usize_ints(order@);
    let mut r: Vec<LibraryBook> = Vec::new();
    let mut k: usize = 0;
    while k < order.len()
        invariant
            order@.len() == books@.len(),
            ov == usize_ints(order@),
            is_stable_order_by(book_keys(books@), ov),
            k <= order@.len(),
            r@.len() == k,
            forall|q: int| 0 <= q < k ==> #[trigger] book_view(r@[q]) == book_view(books@[ov[q]]),
        decreases order@.len() - k,
    {
        assert(ov[k as int] == order@[k as int] as int);
        r.push(clone_book(&books[order[k]]));
        k += 1;
    }
    r
}

/// A theme of the reader: the CSS file's path, its file name, and its
/// stem as name.
pub struct ThemeEntry {
    pub path: String,
    pub file_name: String,
    pub name: String,
}

pub open spec fn theme_entry_ok(t: ThemeEntry, path: Seq<char>) -> bool {
    let name = match spec_file_name(path) {
        Some(n) => n,
        None => "theme.css"@,
    };
    &&& t.path@ == path
    &&& t.file_name@ == name
    &&& t.name@ == match spec_file_stem(path) {
        Some(s) => s,
        None => name,
    }
}

pub fn theme_entry(path: &str) -> (r: ThemeEntry)
    ensures
        theme_entry_ok(r, path@),
{
    proof { reveal_strlit("theme.css"); }
    let name = match file_name(path) {
        Some(n) => n,
        None => chars_of("theme.css"),
    };
    let stem = match file_stem(path) {
        Some(s) => s,
        None => {
            let c = sub_chars(&name, 0, name.len());
            assert(c@ =~= name@);
            c
        },
    };
    ThemeEntry { path: string_of(&chars_of(path)), file_name: string_of(&name), name: string_of(&stem) }
}

/// A theme's name when it is loaded: the file stem, unless it is empty.
pub open spec fn spec_theme_name(path: Seq<char>) -> Seq<char> {
    match spec_file_stem(path) {
        Some(s) => if s.len() > 0 { s } else { "Custom theme"@ },
        None => "Custom theme"@,
    }
}

pub fn theme_name(path: &str) -> (r: String)
    ensures
        r@ == spec_theme_name(path@),
{
    proof { reveal_strlit("Custom theme"); }
    match file_stem(path) {
        Some(s) => if s.len() > 0 { string_of(&s) } else { string_of(&chars_of("Custom theme")) },
        None => string_of(&chars_of("Custom theme")),
    }
}

pub open spec fn theme_keys(v: Seq<ThemeEntry>) -> Seq<(u64, Seq<char>)> {
    v.map_values(|t: ThemeEntry| (0u64, lowercase(t.name@)))
}

pub open spec fn theme_view(t: ThemeEntry) -> (Seq<char>, Seq<char>, Seq<char>) {
    (t.path@, t.file_name@, t.name@)
}

/// Themes listed in `order` come sorted by their names in lower case, so
/// that case does not decide the order: of two themes, the one listed
/// first has a lower-case name that is not after the other's; two whose
/// lower-case names are equal keep the order they were given in; and each
/// theme is listed once.
pub proof fn law_themes_sorted_by_lowercase_name(themes: Seq<ThemeEntry>, order: Seq<int>)
    requires
        is_stable_order_by(theme_keys(themes), order),
    ensures
        order.len() == themes.len(),
        forall|k: int| 0 <= k < order.len() ==> 0 <= #[trigger] order[k] < themes.len(),
        forall|k: int, l: int| 0 <= k < l < order.len() ==> order[k] != order[l],
        forall|k: int, l: int| 0 <= k < l < order.len()
            ==> crate::text::seq_le(lowercase(themes[order[k]].name@), lowercase(themes[order[l]].name@)),
        forall|k: int, l: int| 0 <= k < l < order.len()
            && lowercase(themes[order[k]].name@) == lowercase(themes[order[l]].name@) ==> order[k] < order[l],
{
    let keys = theme_keys(themes);
    assert forall|k: int, l: int| 0 <= k < l < order.len()
        implies crate::text::seq_le(lowercase(themes[order[k]].name@), lowercase(themes[order[l]].name@)) by {
        assert(!key_before(keys[order[l]], keys[order[k]]));
    }
    assert forall|k: int, l: int| 0 <= k < l < order.len()
        && lowercase(themes[order[k]].name@) == lowercase(themes[order[l]].name@) implies order[k] < order[l] by {
        crate::text::lemma_seq_lt_total(lowercase(themes[order[k]].name@), lowercase(themes[order[l]].name@));
        assert(!key_before(keys[order[k]], keys[order[l]]));
    }
}

/// Sorts the themes by name in lower case, ties kept in the order given.
pub fn sort_themes(themes: &Vec<ThemeEntry>) -> (r: Vec<ThemeEntry>)
    ensures
        exists|order: Seq<int>| #[trigger] is_stable_order_by(theme_keys(themes@), order)
            && r@.len() == themes@.len()
            && forall|k: int| 0 <= k < r@.len() ==> #[trigger] theme_view(r@[k]) == theme_view(themes@[order[k]]),
        forall|k: int, l: int| 0 <= k < l < r@.len()
            ==> crate::text::seq_le(lowercase(#[trigger] r@[k].name@), lowercase(#[trigger] r@[l].name@)),
{
    let mut keys: Vec<(u64, Vec<char>)> = Vec::new();
    let mut i: usize = 0;
    while i < themes.len()
        invariant
            i <= themes@.len(),
            keys@.len() == i,
            forall|q: int| 0 <= q < i ==> #[trigger] key_views(keys@)[q] == (0u64, lowercase(themes@[q].name@)),
        decreases themes@.len() - i,
    {
        let ghost before = key_views(keys@);
        let k = (0u64, chars_of(to_lowercase(themes[i].name.as_str()).as_str()));
        keys.push(k);
        assert(key_views(keys@) =~= before.push((k.0, k.1@)));
        i += 1;
    }
    assert(key_views(keys@) =~= theme_keys(themes@));
    let order = stable_order_by(&keys);
    let ghost ov = usize_ints(order@);
    let mut r: Vec<ThemeEntry> = Vec::new();
    let mut k: usize = 0;
    while k < order.len()
        invariant
            order@.len() == themes@.len(),
            ov == usize_ints(order@),
            is_stable_order_by(theme_keys(themes@), ov),
            k <= order@.len(),
            r@.len() == k,
            forall|q: int| 0 <= q < k ==> #[trigger] theme_view(r@[q]) == theme_view(themes@[ov[q]]),
        decreases order@.len() - k,
    {
        assert(ov[k as int] == order@[k as int] as int);
        let t = &themes[order[k]];
        r.push(ThemeEntry { path: t.path.clone(), file_name: t.file_name.clone(), name: t.name.clone() });
        k += 1;
    }
    proof {
        law_themes_sorted_by_lowercase_name(themes@, ov);
        assert forall|k: int, l: int| 0 <= k < l < r@.len()
            implies crate::text::seq_le(lowercase(#[trigger] r@[k].name@), lowercase(#[trigger] r@[l].name@)) by {
            assert(theme_view(r@[k]) == theme_view(themes@[ov[k]]));
            assert(theme_view(r@[l]) == theme_view(themes@[ov[l]]));
        }
    }
    r
}


/// Each attempt at importing a book gets a file name of its own, and
/// each is a `.zmd` file.
pub proof fn law_import_names_distinct(stem: Seq<char>, i: nat, j: nat)
    requires
        1 <= i < j,
    ensures
        spec_import_file_name(stem, i) != spec_import_file_name(stem, j),
        has_zmd_suffix(spec_import_file_name(stem, i)),
{
    reveal_strlit(".zmd");
    reveal_strlit("-");
    let a = spec_import_file_name(stem, i);
    let b = spec_import_file_name(stem, j);
    crate::segments::lemma_decimal_len(j);
    if i == 1 {
        assert(a.len() < b.len());
    } else {
        crate::segments::lemma_decimal_len(i);
        if a == b {
            let da = decimal(i);
            let db = decimal(j);
            assert(a.len() == stem.len() + 1 + da.len() + 4);
            assert(b.len() == stem.len() + 1 + db.len() + 4);
            assert(da.len() == db.len());
            assert(da =~= a.subrange((stem.len() + 1) as int, (stem.len() + 1 + da.len()) as int));
            assert(db =~= b.subrange((stem.len() + 1) as int, (stem.len() + 1 + db.len()) as int));
            crate::segments::lemma_decimal_injective(i, j);
        }
    }
    assert(a.skip(a.len() - 4) =~= ".zmd"@);
}

pub open spec fn has_zmd_suffix(s: Seq<char>) -> bool {
    s.len() >= 4 && s.skip(s.len() - 4) == ".zmd"@
}

proof fn lemma_stem_scan_safe(s: Seq<char>)
    ensures
        forall|k: int| 0 <= k < stem_scan(s).0.len() ==> is_stem_safe(#[trigger] stem_scan(s).0[k]),
    decreases s.len(),
{
    if s.len() > 0 {
        lemma_stem_scan_safe(s.drop_last());
        let prev = stem_scan(s.drop_last()).0;
        let cur = stem_scan(s).0;
        assert forall|k: int| 0 <= k < cur.len() implies is_stem_safe(#[trigger] cur[k]) by {
            if k < prev.len() {
                assert(cur[k] == prev[k]);
            }
        }
    }
}

proof fn lemma_trim_by_keeps(s: Seq<char>, p: spec_fn(char) -> bool, q: spec_fn(char) -> bool)
    requires
        forall|k: int| 0 <= k < s.len() ==> q(#[trigger] s[k]),
    ensures
        forall|k: int| 0 <= k < trim_end_by(trim_start_by(s, p), p).len() ==> q(#[trigger] trim_end_by(trim_start_by(s, p), p)[k]),
        trim_end_by(trim_start_by(s, p), p).len() > 0 ==> !p(trim_end_by(trim_start_by(s, p), p)[0])
            && !p(trim_end_by(trim_start_by(s, p), p).last()),
{
    lemma_trim_start_by(s, p);
    let t = trim_start_by(s, p);
    lemma_trim_end_by(t, p);
}

proof fn lemma_trim_start_by(s: Seq<char>, p: spec_fn(char) -> bool)
    ensures
        exists|k: int| 0 <= k <= s.len() && trim_start_by(s, p) == s.skip(k),
        trim_start_by(s, p).len() > 0 ==> !p(trim_start_by(s, p)[0]),
    decreases s.len(),
{
    if s.len() > 0 && p(s[0]) {
        lemma_trim_start_by(s.drop_first(), p);
        let k = choose|k: int| 0 <= k <= s.drop_first().len() && trim_start_by(s.drop_first(), p) == s.drop_first().skip(k);
        assert(s.drop_first().skip(k) =~= s.skip(k + 1));
    } else {
        assert(s.skip(0) =~= s);
    }
}

proof fn lemma_trim_end_by(s: Seq<char>, p: spec_fn(char) -> bool)
    ensures
        exists|k: int| 0 <= k <= s.len() && trim_end_by(s, p) == s.take(k),
        trim_end_by(s, p).len() > 0 ==> !p(trim_end_by(s, p).last()) && trim_end_by(s, p)[0] == s[0],
    decreases s.len(),
{
    if s.len() > 0 && p(s.last()) {
        lemma_trim_end_by(s.drop_last(), p);
        let k = choose|k: int| 0 <= k <= s.drop_last().len() && trim_end_by(s.drop_last(), p) == s.drop_last().take(k);
        assert(s.drop_last().take(k) =~= s.take(k));
    } else {
        assert(s.take(s.len() as int) =~= s);
    }
}

/// A sanitized stem is never empty; unless it is the default `book`,
/// every character is a letter, a digit, `-`, `_` or `.`, and it neither
/// starts nor ends with `-` or `.`.
pub proof fn law_sanitized_stem_is_safe(input: Seq<char>)
    ensures
        spec_sanitize_file_stem(input).len() > 0,
        spec_sanitize_file_stem(input) != "book"@ ==> {
            let r = spec_sanitize_file_stem(input);
            &&& forall|k: int| 0 <= k < r.len() ==> is_stem_safe(#[trigger] r[k])
            &&& !is_dash_or_dot(r[0])
            &&& !is_dash_or_dot(r.last())
        },
{
    reveal_strlit("book");
    lemma_stem_scan_safe(input);
    let v = stem_scan(input).0;
    let q = |c: char| is_stem_safe(c);
    assert forall|k: int| 0 <= k < v.len() implies q(#[trigger] v[k]) by {}
    lemma_trim_by_keeps(v, dash_or_dot(), q);
}

} // verus!

//! Fenced code blocks, which the clean-up of a chapter must leave as
//! they are.
use vstd::prelude::*;
use crate::text::{strings_view, chars_of, string_of, sub_chars, append_chars, trim_start, trim, is_whitespace, trim_chars};
use crate::paths::{split_on, join_on, split_chars, trim_end_char};
use crate::naming::{decimal, digit_char, push_decimal};

verus! {

broadcast use vstd::string::group_string_axioms;

/// `line.trim_end_matches('\n').trim_end_matches('\r')`.
pub open spec fn spec_trim_line_ending(line: Seq<char>) -> Seq<char> {
    trim_end_char(trim_end_char(line, '\n'), '\r')
}

fn trim_end_char_chars(v: &Vec<char>, c: char) -> (r: Vec<char>)
    ensures
        r@ == trim_end_char(v@, c),
{
    let mut end = v.len();
    assert(v@.take(v.len() as int) =~= v@);
    while end > 0 && v[end - 1] == c
        invariant
            end <= v.len(),
            trim_end_char(v@.take(end as int), c) == trim_end_char(v@, c),
        decreases end,
    {
        assert(v@.take(end - 1) =~= v@.take(end as int).drop_last());
        end -= 1;
    }
    sub_chars(v, 0, end)
}

/// The line without its line ending.
pub fn trim_line_ending(line: &str) -> (r: String)
    ensures
        r@ == spec_trim_line_ending(line@),
{
    let v = trim_end_char_chars(&chars_of(line), '\n');
    string_of(&trim_end_char_chars(&v, '\r'))
}

/// The whitespace that a line starts with.
pub open spec fn leading_ws(s: Seq<char>) -> Seq<char> {
    s.take(s.len() - trim_start(s).len())
}

/// The UTF-8 length of the indentation, as `str::len` counts it.
pub open spec fn indent_bytes(s: Seq<char>) -> usize {
    vstd::utf8::encode_utf8(leading_ws(s)).len() as usize
}

/// How many times `c` repeats at the start of `s`.
pub open spec fn run_len(s: Seq<char>, c: char) -> nat
    decreases s.len(),
{
    if s.len() > 0 && s[0] == c {
        1 + run_len(s.drop_first(), c)
    } else {
        0
    }
}

/// A line that opens a fence: at most three bytes of indentation, then
/// three or more backticks or tildes; the fence character and length.
pub open spec fn spec_opening_fence(line: Seq<char>) -> Option<(char, nat)> {
    let l = spec_trim_line_ending(line);
    let t = trim_start(l);
    if indent_bytes(l) > 3 {
        None
    } else if t.len() > 0 && (t[0] == '`' || t[0] == '~') && run_len(t, t[0]) >= 3 {
        Some((t[0], run_len(t, t[0])))
    } else {
        None
    }
}

/// A line that closes a fence of `fence_char` opened with `opening_len`
/// characters: at most three bytes of indentation, at least as many
/// fence characters, then only whitespace.
pub open spec fn spec_is_closing_fence(line: Seq<char>, fence_char: char, opening_len: nat) -> bool {
    let l = spec_trim_line_ending(line);
    let t = trim_start(l);
    indent_bytes(l) <= 3 && run_len(t, fence_char) >= opening_len
        && trim(t.skip(run_len(t, fence_char) as int)).len() == 0
}

proof fn lemma_trim_start_len(s: Seq<char>)
    ensures
        trim_start(s).len() <= s.len(),
        trim_start(s) == s.skip(s.len() - trim_start(s).len()),
{
    crate::text::lemma_trim_start_is_suffix(s);
    let k = choose|k: int| 0 <= k <= s.len() && trim_start(s) == s.skip(k)
        && forall|j: int| 0 <= j < k ==> crate::text::is_ws(#[trigger] s[j]);
}

/// The start of `v` after its leading whitespace.
fn trim_start_index(v: &Vec<char>) -> (r: usize)
    ensures
        r <= v.len(),
        r == v@.len() - trim_start(v@).len(),
        trim_start(v@) == v@.skip(r as int),
{
    proof { lemma_trim_start_len(v@); }
    let mut i: usize = 0;
    assert(v@.skip(0) =~= v@);
    while i < v.len() && is_whitespace(v[i])
        invariant
            i <= v.len(),
            trim_start(v@.skip(i as int)) == trim_start(v@),
        decreases v.len() - i,
    {
        assert(v@.skip(i as int).drop_first() =~= v@.skip(i + 1));
        i += 1;
    }
    proof {
        lemma_trim_start_len(v@);
        assert(v@.skip(i as int).len() == 0 || !crate::text::is_ws(v@.skip(i as int)[0]));
        assert(trim_start(v@.skip(i as int)) == v@.skip(i as int));
    }
    i
}

proof fn lemma_run_len_bound(s: Seq<char>, c: char)
    ensures
        run_len(s, c) <= s.len(),
        forall|j: int| 0 <= j < run_len(s, c) ==> s[j] == c,
        run_len(s, c) < s.len() ==> s[run_len(s, c) as int] != c,
    decreases s.len(),
{
    if s.len() > 0 && s[0] == c {
        lemma_run_len_bound(s.drop_first(), c);
        assert forall|j: int| 0 <= j < run_len(s, c) implies s[j] == c by {
            if j > 0 {
                assert(s[j] == s.drop_first()[j - 1]);
            }
        }
        if run_len(s, c) < s.len() {
            assert(s[run_len(s, c) as int] == s.drop_first()[run_len(s, c) - 1]);
        }
    }
}

/// How many times `c` repeats from `v[from]` on.
fn run_from(v: &Vec<char>, from: usize, c: char) -> (r: usize)
    requires
        from <= v.len(),
    ensures
        from + r <= v.len(),
        r == run_len(v@.skip(from as int), c),
{
    let mut i = from;
    proof { lemma_run_len_bound(v@.skip(from as int), c); }
    while i < v.len() && v[i] == c
        invariant
            from <= i <= v.len(),
            run_len(v@.skip(from as int), c) == (i - from) + run_len(v@.skip(i as int), c),
        decreases v.len() - i,
    {
        assert(v@.skip(i as int).drop_first() =~= v@.skip(i + 1));
        i += 1;
    }
    i - from
}

/// The UTF-8 length of the characters `v[..n]`.
fn utf8_len_prefix(v: &Vec<char>, n: usize) -> (r: usize)
    requires
        n <= v.len(),
    ensures
        r == vstd::utf8::encode_utf8(v@.take(n as int)).len() as usize,
{
    let s = string_of(&sub_chars(v, 0, n));
    assert(v@.subrange(0, n as int) =~= v@.take(n as int));
    s.as_str().len()
}

/// The fence character and length of a line that opens a fenced code
/// block.
pub fn opening_fence_line(line: &str) -> (r: Option<(char, usize)>)
    ensures
        match r {
            Some((c, n)) => spec_opening_fence(line@) == Some((c, n as nat)),
            None => spec_opening_fence(line@) is None,
        },
{
    let l = chars_of(trim_line_ending(line).as_str());
    let start = trim_start_index(&l);
    let indent = utf8_len_prefix(&l, start);
    assert(l@.take(start as int) =~= leading_ws(l@));
    if indent > 3 {
        return None;
    }
    if start >= l.len() {
        return None;
    }
    let first = l[start];
    assert(trim_start(l@)[0] == first);
    assert(l@ == spec_trim_line_ending(line@));
    if first != '`' && first != '~' {
        return None;
    }
    let n = run_from(&l, start, first);
    assert(run_len(trim_start(l@), first) == n);
    if n >= 3 {
        Some((first, n))
    } else {
        None
    }
}

/// Whether the line closes a fence of `fence_char` (an ASCII character)
/// opened with `opening_len` characters.
pub fn is_closing_fence_line(line: &str, fence_char: char, opening_len: usize) -> (r: bool)
    ensures
        r == spec_is_closing_fence(line@, fence_char, opening_len as nat),
{
    let l = chars_of(trim_line_ending(line).as_str());
    let start = trim_start_index(&l);
    let indent = utf8_len_prefix(&l, start);
    assert(l@.take(start as int) =~= leading_ws(l@));
    if indent > 3 {
        return false;
    }
    let n = run_from(&l, start, fence_char);
    let rest = sub_chars(&l, start + n, l.len());
    assert(rest@ =~= trim_start(l@).skip(n as int));
    n >= opening_len && trim_chars(&rest).len() == 0
}

pub open spec fn private_use_mark() -> char {
    '\u{E000}'
}

/// The text that stands for the `index`-th code block while the rest of
/// the chapter is cleaned up.
pub open spec fn spec_placeholder(index: nat) -> Seq<char> {
    seq![private_use_mark()] + "EPUBMD_FENCED_CODE_BLOCK_"@ + decimal(index) + seq![private_use_mark()]
}

pub fn fenced_code_placeholder(index: usize) -> (r: String)
    ensures
        r@ == spec_placeholder(index as nat),
{
    let mut out: Vec<char> = Vec::new();
    out.push('\u{E000}');
    let word = "EPUBMD_FENCED_CODE_BLOCK_";
    proof { reveal_strlit("EPUBMD_FENCED_CODE_BLOCK_"); }
    append_chars(&mut out, &chars_of(word));
    push_decimal(&mut out, index);
    out.push('\u{E000}');
    assert(out@ =~= spec_placeholder(index as nat));
    string_of(&out)
}

/// `str::split_inclusive('\n')`: the pieces keep their `\n`, and an
/// empty final piece is dropped.
pub open spec fn split_inclusive(s: Seq<char>) -> Seq<Seq<char>> {
    let p = split_on(s, '\n');
    let n = p.len();
    if p.last().len() == 0 {
        Seq::new((n - 1) as nat, |i: int| p[i].push('\n'))
    } else {
        Seq::new(n as nat, |i: int| if i < n - 1 { p[i].push('\n') } else { p[i] })
    }
}

fn split_inclusive_lines(s: &Vec<char>) -> (r: Vec<Vec<char>>)
    ensures
        r@.map_values(|v: Vec<char>| v@) == split_inclusive(s@),
{
    let pieces = split_chars(s, '\n');
    let ghost pv = pieces@.map_values(|v: Vec<char>| v@);
    let n = pieces.len();
    assert(pv.last() == pieces@[n - 1]@);
    let count = if pieces[n - 1].len() == 0 { n - 1 } else { n };
    let ghost target = split_inclusive(s@);
    let mut r: Vec<Vec<char>> = Vec::new();
    let mut i: usize = 0;
    while i < count
        invariant
            i <= count <= n == pieces@.len(),
            n >= 1,
            pv == pieces@.map_values(|v: Vec<char>| v@),
            pv == split_on(s@, '\n'),
            target == split_inclusive(s@),
            target.len() == count,
            count as int == (if pv.last().len() == 0 { n - 1 } else { n as int }),
            r@.len() == i,
            forall|k: int| 0 <= k < i ==> (#[trigger] r@[k])@ == target[k],
        decreases count - i,
    {
        let mut piece = sub_chars(&pieces[i], 0, pieces[i].len());
        assert(piece@ =~= pv[i as int]);
        if i + 1 < n {
            piece.push('\n');
        }
        r.push(piece);
        i += 1;
    }
    assert(r@.map_values(|v: Vec<char>| v@) =~= target);
    r
}

/// The state of the scan that takes the fenced blocks out of a chapter.
pub struct ProtectState {
    pub protected: Seq<char>,
    pub blocks: Seq<Seq<char>>,
    pub active: Option<(char, nat)>,
    pub block: Seq<char>,
}

pub open spec fn protect_step(st: ProtectState, line: Seq<char>) -> ProtectState {
    match st.active {
        Some((c, n)) => {
            let block = st.block + line;
            if spec_is_closing_fence(line, c, n) {
                ProtectState {
                    protected: st.protected + spec_placeholder(st.blocks.len()),
                    blocks: st.blocks.push(block),
                    active: None,
                    block: Seq::<char>::empty(),
                }
            } else {
                ProtectState { block, ..st }
            }
        },
        None => match spec_opening_fence(line) {
            Some(f) => ProtectState { block: st.block + line, active: Some(f), ..st },
            None => ProtectState { protected: st.protected + line, ..st },
        },
    }
}

pub open spec fn protect_scan(lines: Seq<Seq<char>>) -> ProtectState
    decreases lines.len(),
{
    if lines.len() == 0 {
        ProtectState {
            protected: Seq::<char>::empty(),
            blocks: Seq::<Seq<char>>::empty(),
            active: None,
            block: Seq::<char>::empty(),
        }
    } else {
        protect_step(protect_scan(lines.drop_last()), lines.last())
    }
}

/// The chapter with each complete fenced code block replaced by its
/// placeholder, and the blocks in order; an unclosed fence is left in
/// the text.
pub open spec fn spec_protect(markdown: Seq<char>) -> (Seq<char>, Seq<Seq<char>>) {
    let st = protect_scan(split_inclusive(markdown));
    (st.protected + st.block, st.blocks)
}

/// Takes the fenced code blocks out of the chapter, leaving placeholders.
pub fn protect_fenced_code_blocks(markdown: &str) -> (r: (String, Vec<String>))
    ensures
        (r.0@, strings_view(r.1@)) == spec_protect(markdown@),
{
    let lines = split_inclusive_lines(&chars_of(markdown));
    let ghost lv = lines@.map_values(|v: Vec<char>| v@);
    let mut protected: Vec<char> = Vec::new();
    let mut code_blocks: Vec<String> = Vec::new();
    let mut active: Option<(char, usize)> = None;
    let mut block: Vec<char> = Vec::new();
    let mut i: usize = 0;
    assert(lv.take(0) =~= Seq::<Seq<char>>::empty());
    assert(strings_view(code_blocks@) =~= Seq::<Seq<char>>::empty());
    while i < lines.len()
        invariant
            i <= lines@.len(),
            lv == lines@.map_values(|v: Vec<char>| v@),
            lv == split_inclusive(markdown@),
            protect_scan(lv.take(i as int)) == (ProtectState {
                protected: protected@,
                blocks: strings_view(code_blocks@),
                active: match active { Some((c, n)) => Some((c, n as nat)), None => None },
                block: block@,
            }),
        decreases lines@.len() - i,
    {
        let ghost t = lv.take(i + 1);
        assert(t.drop_last() =~= lv.take(i as int));
        assert(t.last() == lines@[i as int]@);
        let line = &lines[i];
        let ls = string_of(line);
        match active {
            Some((c, n)) => {
                append_chars(&mut block, line);
                if is_closing_fence_line(ls.as_str(), c, n) {
                    let placeholder = fenced_code_placeholder(code_blocks.len());
                    append_chars(&mut protected, &chars_of(placeholder.as_str()));
                    let ghost before = code_blocks@;
                    code_blocks.push(string_of(&block));
                    assert(strings_view(code_blocks@) =~= strings_view(before).push(block@));
                    block = Vec::new();
                    active = None;
                }
            },
            None => {
                match opening_fence_line(ls.as_str()) {
                    Some(f) => {
                        append_chars(&mut block, line);
                        active = Some(f);
                    },
                    None => {
                        append_chars(&mut protected, line);
                    },
                }
            },
        }
        i += 1;
    }
    assert(lv.take(lines@.len() as int) =~= lv);
    if block.len() > 0 {
        append_chars(&mut protected, &block);
    } else {
        assert(protected@ + block@ =~= protected@);
    }
    (string_of(&protected), code_blocks)
}

/// `str::replace`: every non-overlapping occurrence of `pat`, from the
/// left, replaced by `rep`.
pub open spec fn spec_replace(s: Seq<char>, pat: Seq<char>, rep: Seq<char>) -> Seq<char>
    decreases s.len(),
{
    if pat.len() == 0 || s.len() < pat.len() {
        s
    } else if s.take(pat.len() as int) == pat {
        rep + spec_replace(s.skip(pat.len() as int), pat, rep)
    } else {
        seq![s[0]] + spec_replace(s.drop_first(), pat, rep)
    }
}

/// Every non-overlapping occurrence of `pat` in `s` replaced by `rep`.
pub fn replace_chars(s: &Vec<char>, pat: &Vec<char>, rep: &Vec<char>) -> (r: Vec<char>)
    requires
        pat@.len() > 0,
    ensures
        r@ == spec_replace(s@, pat@, rep@),
{
    let mut out: Vec<char> = Vec::new();
    let mut i: usize = 0;
    assert(s@.skip(0) =~= s@);
    assert(out@ + spec_replace(s@, pat@, rep@) =~= spec_replace(s@, pat@, rep@));
    while i < s.len()
        invariant
            i <= s.len(),
            pat@.len() > 0,
            out@ + spec_replace(s@.skip(i as int), pat@, rep@) == spec_replace(s@, pat@, rep@),
        decreases s.len() - i,
    {
        let ghost rest = s@.skip(i as int);
        if crate::text::matches_at(s, i, pat) {
            assert(rest.take(pat@.len() as int) =~= s@.subrange(i as int, i + pat@.len()));
            assert(rest.skip(pat@.len() as int) =~= s@.skip(i + pat@.len()));
            append_chars(&mut out, rep);
            assert(out@ + spec_replace(s@.skip(i + pat@.len()), pat@, rep@)
                =~= spec_replace(s@, pat@, rep@));
            i = i + pat.len();
        } else {
            proof {
                if rest.len() >= pat@.len() {
                    assert(rest.take(pat@.len() as int) =~= s@.subrange(i as int, i + pat@.len()));
                    assert(rest.drop_first() =~= s@.skip(i + 1));
                } else {
                    assert(spec_replace(rest, pat@, rep@) == rest);
                    assert(s@.skip(i + 1) =~= rest.drop_first());
                    lemma_short_replace(rest.drop_first(), pat@, rep@);
                    assert(seq![rest[0]] + rest.drop_first() =~= rest);
                }
            }
            let ghost before = out@;
            out.push(s[i]);
            assert(out@ =~= before + seq![rest[0]]);
            i += 1;
        }
    }
    assert(s@.skip(s.len() as int) =~= Seq::<char>::empty());
    assert(out@ + Seq::<char>::empty() =~= out@);
    out
}

proof fn lemma_short_replace(s: Seq<char>, pat: Seq<char>, rep: Seq<char>)
    requires
        s.len() < pat.len(),
    ensures
        spec_replace(s, pat, rep) == s,
{
}

/// The placeholders replaced by their code blocks, one block after the
/// other.
pub open spec fn spec_restore(markdown: Seq<char>, blocks: Seq<Seq<char>>) -> Seq<char>
    decreases blocks.len(),
{
    if blocks.len() == 0 {
        markdown
    } else {
        spec_replace(
            spec_restore(markdown, blocks.drop_last()),
            spec_placeholder((blocks.len() - 1) as nat),
            blocks.last(),
        )
    }
}

pub fn restore_fenced_code_blocks(markdown: &str, code_blocks: &[String]) -> (r: String)
    ensures
        r@ == spec_restore(markdown@, code_blocks@.map_values(|s: String| s@)),
{
    let ghost bv = code_blocks@.map_values(|s: String| s@);
    let mut restored = chars_of(markdown);
    let mut i: usize = 0;
    while i < code_blocks.len()
        invariant
            i <= code_blocks@.len(),
            bv == code_blocks@.map_values(|s: String| s@),
            restored@ == spec_restore(markdown@, bv.take(i as int)),
        decreases code_blocks@.len() - i,
    {
        let ghost t = bv.take(i + 1);
        assert(t.drop_last() =~= bv.take(i as int));
        let placeholder = chars_of(fenced_code_placeholder(i).as_str());
        assert(placeholder@.len() > 0);
        restored = replace_chars(&restored, &placeholder, &chars_of(code_blocks[i].as_str()));
        i += 1;
    }
    assert(bv.take(code_blocks@.len() as int) =~= bv);
    string_of(&restored)
}


/// No character of `s` is the placeholder mark.
pub open spec fn no_mark(s: Seq<char>) -> bool {
    forall|k: int| 0 <= k < s.len() ==> s[k] != private_use_mark()
}

/// `s` is a whole line: it ends with `\n`.
pub open spec fn ends_line(s: Seq<char>) -> bool {
    s.len() > 0 && s.last() == '\n'
}

/// The lines joined back, one after the other.
pub open spec fn concat_lines(lines: Seq<Seq<char>>) -> Seq<char>
    decreases lines.len(),
{
    if lines.len() == 0 {
        Seq::empty()
    } else {
        concat_lines(lines.drop_last()) + lines.last()
    }
}

/// What stands in a chapter while its code blocks are out: text as it
/// is, or the place of the code block with that index.
pub enum Piece {
    Text(Seq<char>),
    Hole(nat),
}

/// A piece as written when the blocks below `filled` are back in place.
pub open spec fn piece_text(p: Piece, blocks: Seq<Seq<char>>, filled: nat) -> Seq<char> {
    match p {
        Piece::Text(t) => t,
        Piece::Hole(j) => if j < filled { blocks[j as int] } else { spec_placeholder(j) },
    }
}

pub open spec fn render_pieces(ps: Seq<Piece>, blocks: Seq<Seq<char>>, filled: nat) -> Seq<char>
    decreases ps.len(),
{
    if ps.len() == 0 {
        Seq::empty()
    } else {
        piece_text(ps[0], blocks, filled) + render_pieces(ps.drop_first(), blocks, filled)
    }
}

pub open spec fn piece_ok(p: Piece, blocks: Seq<Seq<char>>) -> bool {
    match p {
        Piece::Text(t) => no_mark(t),
        Piece::Hole(j) => j < blocks.len(),
    }
}

/// Text and blocks hold no mark, holes name a block, and every piece but
/// the last ends a line.
pub open spec fn pieces_wf(ps: Seq<Piece>, blocks: Seq<Seq<char>>) -> bool {
    &&& forall|k: int| 0 <= k < ps.len() ==> piece_ok(#[trigger] ps[k], blocks)
    &&& forall|j: int| 0 <= j < blocks.len() ==> no_mark(#[trigger] blocks[j])
    &&& forall|k: int| 0 <= k < ps.len() - 1 ==> ends_line(piece_text(#[trigger] ps[k], blocks, blocks.len()))
}

proof fn lemma_no_mark_concat(a: Seq<char>, b: Seq<char>)
    requires
        no_mark(a),
        no_mark(b),
    ensures
        no_mark(a + b),
{
    assert forall|k: int| 0 <= k < (a + b).len() implies (a + b)[k] != private_use_mark() by {
        if k < a.len() {
            assert((a + b)[k] == a[k]);
        } else {
            assert((a + b)[k] == b[k - a.len()]);
        }
    }
}

proof fn lemma_ends_line_concat(a: Seq<char>, b: Seq<char>)
    requires
        ends_line(b),
    ensures
        ends_line(a + b),
{
    assert((a + b).last() == b.last());
}

proof fn lemma_wf_rest(ps: Seq<Piece>, blocks: Seq<Seq<char>>)
    requires
        pieces_wf(ps, blocks),
        ps.len() > 0,
    ensures
        pieces_wf(ps.drop_first(), blocks),
        piece_ok(ps[0], blocks),
        ps.len() > 1 ==> ends_line(piece_text(ps[0], blocks, blocks.len())),
{
    let r = ps.drop_first();
    assert forall|k: int| 0 <= k < r.len() implies piece_ok(#[trigger] r[k], blocks) by {
        assert(r[k] == ps[k + 1]);
    }
    assert forall|k: int| 0 <= k < r.len() - 1 implies ends_line(piece_text(#[trigger] r[k], blocks, blocks.len())) by {
        assert(r[k] == ps[k + 1]);
    }
    assert(piece_ok(ps[0], blocks));
}

proof fn lemma_decimal_plain(n: nat)
    ensures
        forall|k: int| 0 <= k < decimal(n).len() ==> (#[trigger] decimal(n)[k]) != private_use_mark()
            && decimal(n)[k] != '\n',
    decreases n,
{
    if n >= 10 {
        lemma_decimal_plain(n / 10);
        let d = decimal(n);
        assert forall|k: int| 0 <= k < d.len() implies (#[trigger] d[k]) != private_use_mark() && d[k] != '\n' by {
            if k < decimal(n / 10).len() {
                assert(d[k] == decimal(n / 10)[k]);
            } else {
                assert(d[k] == digit_char(n % 10));
            }
        }
    }
}

/// The placeholder is the mark, the word, the index's digits and the
/// mark again; only its ends are marks.
proof fn lemma_placeholder_shape(n: nat)
    ensures
        spec_placeholder(n).len() == 27 + decimal(n).len(),
        decimal(n).len() >= 1,
        spec_placeholder(n)[0] == private_use_mark(),
        spec_placeholder(n)[spec_placeholder(n).len() - 1] == private_use_mark(),
        forall|k: int| 0 < k < spec_placeholder(n).len() - 1 ==> (#[trigger] spec_placeholder(n)[k]) != private_use_mark(),
        spec_placeholder(n)[spec_placeholder(n).len() - 2] != '\n',
        spec_placeholder(n).subrange(26, spec_placeholder(n).len() - 1) == decimal(n),
{
    reveal_strlit("EPUBMD_FENCED_CODE_BLOCK_");
    crate::segments::lemma_decimal_len(n);
    lemma_decimal_plain(n);
    let w = "EPUBMD_FENCED_CODE_BLOCK_"@;
    let d = decimal(n);
    let ph = spec_placeholder(n);
    assert(w.len() == 25);
    assert forall|k: int| 0 < k < ph.len() - 1 implies (#[trigger] ph[k]) != private_use_mark() by {
        if k < 26 {
            assert(ph[k] == w[k - 1]);
        } else {
            assert(ph[k] == d[k - 26]);
        }
    }
    assert(ph[ph.len() - 2] == d[d.len() - 1]);
    assert(ph.subrange(26, ph.len() - 1) =~= d);
}

/// Two placeholders cannot both start the same text unless they are one.
proof fn lemma_placeholder_match_unique(s: Seq<char>, i: nat, j: nat)
    requires
        s.len() >= spec_placeholder(i).len(),
        s.take(spec_placeholder(i).len() as int) == spec_placeholder(i),
        s.len() >= spec_placeholder(j).len(),
        s.take(spec_placeholder(j).len() as int) == spec_placeholder(j),
    ensures
        i == j,
{
    lemma_placeholder_shape(i);
    lemma_placeholder_shape(j);
    let pi = spec_placeholder(i);
    let pj = spec_placeholder(j);
    if pj.len() < pi.len() {
        assert(s[pj.len() - 1] == pj[pj.len() - 1]);
        assert(s[pj.len() - 1] == pi[pj.len() - 1]);
        assert(false);
    } else if pi.len() < pj.len() {
        assert(s[pi.len() - 1] == pi[pi.len() - 1]);
        assert(s[pi.len() - 1] == pj[pi.len() - 1]);
        assert(false);
    } else {
        assert(pi =~= pj);
        crate::segments::lemma_decimal_injective(i, j);
    }
}

proof fn lemma_replace_skips_plain(a: Seq<char>, b: Seq<char>, pat: Seq<char>, rep: Seq<char>)
    requires
        no_mark(a),
        pat.len() > 0,
        pat[0] == private_use_mark(),
    ensures
        spec_replace(a + b, pat, rep) == a + spec_replace(b, pat, rep),
    decreases a.len(),
{
    let s = a + b;
    if a.len() == 0 {
        assert(s =~= b);
        assert(a + spec_replace(b, pat, rep) =~= spec_replace(b, pat, rep));
    } else if s.len() < pat.len() {
        lemma_short_replace(b, pat, rep);
    } else {
        assert(s.take(pat.len() as int)[0] == a[0]);
        assert(s.take(pat.len() as int) != pat);
        assert(s.drop_first() =~= a.drop_first() + b);
        lemma_replace_skips_plain(a.drop_first(), b, pat, rep);
        assert(seq![s[0]] + (a.drop_first() + spec_replace(b, pat, rep)) =~= a + spec_replace(b, pat, rep));
    }
}

proof fn lemma_replace_at_pattern(b: Seq<char>, pat: Seq<char>, rep: Seq<char>)
    requires
        pat.len() > 0,
    ensures
        spec_replace(pat + b, pat, rep) == rep + spec_replace(b, pat, rep),
{
    let s = pat + b;
    assert(s.take(pat.len() as int) =~= pat);
    assert(s.skip(pat.len() as int) =~= b);
}

proof fn lemma_replace_no_match_here(s: Seq<char>, pat: Seq<char>, rep: Seq<char>)
    requires
        s.len() > 0,
        pat.len() > 0,
        s.len() >= pat.len() ==> s.take(pat.len() as int) != pat,
    ensures
        spec_replace(s, pat, rep) == seq![s[0]] + spec_replace(s.drop_first(), pat, rep),
{
    if s.len() < pat.len() {
        lemma_short_replace(s.drop_first(), pat, rep);
        assert(seq![s[0]] + s.drop_first() =~= s);
    }
}

/// In a chapter with some blocks back, the first mark starts the text or
/// a line.
proof fn lemma_first_mark_starts_line(ps: Seq<Piece>, blocks: Seq<Seq<char>>, filled: nat, k: int)
    requires
        pieces_wf(ps, blocks),
        filled <= blocks.len(),
        0 <= k < render_pieces(ps, blocks, filled).len(),
        render_pieces(ps, blocks, filled)[k] == private_use_mark(),
        forall|m: int| 0 <= m < k ==> render_pieces(ps, blocks, filled)[m] != private_use_mark(),
    ensures
        k == 0 || render_pieces(ps, blocks, filled)[k - 1] == '\n',
    decreases ps.len(),
{
    let r = render_pieces(ps, blocks, filled);
    let c = piece_text(ps[0], blocks, filled);
    let rest = render_pieces(ps.drop_first(), blocks, filled);
    lemma_wf_rest(ps, blocks);
    assert(r == c + rest);
    match ps[0] {
        Piece::Hole(j) => {
            if j >= filled {
                lemma_placeholder_shape(j);
                assert(r[0] == private_use_mark());
                return;
            }
        },
        Piece::Text(_) => {},
    }
    assert(no_mark(c));
    if k < c.len() {
        assert(r[k] == c[k]);
    }
    assert(k >= c.len());
    if ps.len() == 1 {
        assert(rest.len() == 0);
    } else {
        assert(c == piece_text(ps[0], blocks, blocks.len()));
        if k > c.len() {
            assert forall|m: int| 0 <= m < k - c.len() implies rest[m] != private_use_mark() by {
                assert(rest[m] == r[m + c.len()]);
            }
            assert(rest[k - c.len()] == r[k]);
            lemma_first_mark_starts_line(ps.drop_first(), blocks, filled, k - c.len());
            assert(r[k - 1] == rest[k - c.len() - 1]);
        } else {
            assert(r[k - 1] == c[c.len() - 1]);
        }
    }
}

/// Putting the `i`-th block back fills exactly the `i`-th hole.
proof fn lemma_fill_step(ps: Seq<Piece>, blocks: Seq<Seq<char>>, i: nat)
    requires
        pieces_wf(ps, blocks),
        i < blocks.len(),
    ensures
        spec_replace(render_pieces(ps, blocks, i), spec_placeholder(i), blocks[i as int])
            == render_pieces(ps, blocks, i + 1),
    decreases ps.len(),
{
    let pat = spec_placeholder(i);
    let rep = blocks[i as int];
    lemma_placeholder_shape(i);
    if ps.len() == 0 {
        lemma_short_replace(Seq::<char>::empty(), pat, rep);
        return;
    }
    lemma_wf_rest(ps, blocks);
    let rest = ps.drop_first();
    lemma_fill_step(rest, blocks, i);
    let r0 = render_pieces(rest, blocks, i);
    let r1 = render_pieces(rest, blocks, i + 1);
    match ps[0] {
        Piece::Text(t) => {
            lemma_replace_skips_plain(t, r0, pat, rep);
        },
        Piece::Hole(j) => {
            if j < i {
                lemma_replace_skips_plain(blocks[j as int], r0, pat, rep);
            } else if j == i {
                lemma_replace_at_pattern(r0, pat, rep);
            } else {
                let pj = spec_placeholder(j);
                lemma_placeholder_shape(j);
                let s = pj + r0;
                assert(s.take(pj.len() as int) =~= pj);
                if s.len() >= pat.len() && s.take(pat.len() as int) == pat {
                    lemma_placeholder_match_unique(s, i, j);
                }
                lemma_replace_no_match_here(s, pat, rep);
                let mid = pj.subrange(1, pj.len() - 1);
                assert(no_mark(mid));
                let t = seq![private_use_mark()] + r0;
                assert(s.drop_first() =~= mid + t);
                lemma_replace_skips_plain(mid, t, pat, rep);
                if t.len() >= pat.len() && t.take(pat.len() as int) == pat {
                    let k = pat.len() - 2;
                    assert(t[k + 1] == pat[k + 1]);
                    assert(r0[k] == t[k + 1]);
                    assert forall|m: int| 0 <= m < k implies r0[m] != private_use_mark() by {
                        assert(r0[m] == t[m + 1]);
                        assert(t[m + 1] == pat[m + 1]);
                    }
                    lemma_first_mark_starts_line(rest, blocks, i, k);
                    assert(r0[k - 1] == t[k]);
                    assert(t[k] == pat[k]);
                    assert(false);
                }
                lemma_replace_no_match_here(t, pat, rep);
                assert(t.drop_first() =~= r0);
                assert(seq![s[0]] + (mid + (seq![t[0]] + r1)) =~= pj + r1);
            }
        },
    }
}

/// Putting the first `i` blocks back fills the first `i` holes.
proof fn lemma_restore_fills(ps: Seq<Piece>, blocks: Seq<Seq<char>>, i: nat)
    requires
        pieces_wf(ps, blocks),
        i <= blocks.len(),
    ensures
        spec_restore(render_pieces(ps, blocks, 0), blocks.take(i as int)) == render_pieces(ps, blocks, i),
    decreases i,
{
    if i > 0 {
        lemma_restore_fills(ps, blocks, (i - 1) as nat);
        let t = blocks.take(i as int);
        assert(t.drop_last() =~= blocks.take(i - 1));
        assert(t.last() == blocks[i - 1]);
        lemma_fill_step(ps, blocks, (i - 1) as nat);
    }
}

proof fn lemma_render_push(ps: Seq<Piece>, p: Piece, blocks: Seq<Seq<char>>, filled: nat)
    ensures
        render_pieces(ps.push(p), blocks, filled) == render_pieces(ps, blocks, filled) + piece_text(p, blocks, filled),
    decreases ps.len(),
{
    if ps.len() == 0 {
        assert(ps.push(p).drop_first() =~= Seq::<Piece>::empty());
        assert(ps.push(p)[0] == p);
        assert(render_pieces(Seq::<Piece>::empty(), blocks, filled) == Seq::<char>::empty());
        assert(render_pieces(ps.push(p), blocks, filled)
            == piece_text(p, blocks, filled) + render_pieces(Seq::<Piece>::empty(), blocks, filled));
        assert(piece_text(p, blocks, filled) + Seq::<char>::empty() =~= piece_text(p, blocks, filled));
        assert(Seq::<char>::empty() + piece_text(p, blocks, filled) =~= piece_text(p, blocks, filled));
    } else {
        assert(ps.push(p).drop_first() =~= ps.drop_first().push(p));
        assert(ps.push(p)[0] == ps[0]);
        lemma_render_push(ps.drop_first(), p, blocks, filled);
        let a = piece_text(ps[0], blocks, filled);
        let r = render_pieces(ps.drop_first(), blocks, filled);
        let c = piece_text(p, blocks, filled);
        assert(a + (r + c) =~= (a + r) + c);
        assert(render_pieces(ps.push(p), blocks, filled)
            == piece_text(ps[0], blocks, filled) + render_pieces(ps.drop_first().push(p), blocks, filled));
    }
}

proof fn lemma_render_same(ps: Seq<Piece>, b1: Seq<Seq<char>>, f1: nat, b2: Seq<Seq<char>>, f2: nat)
    requires
        forall|k: int| 0 <= k < ps.len() ==> piece_text(#[trigger] ps[k], b1, f1) == piece_text(ps[k], b2, f2),
    ensures
        render_pieces(ps, b1, f1) == render_pieces(ps, b2, f2),
    decreases ps.len(),
{
    if ps.len() > 0 {
        let r = ps.drop_first();
        assert forall|k: int| 0 <= k < r.len() implies piece_text(#[trigger] r[k], b1, f1) == piece_text(r[k], b2, f2) by {
            assert(r[k] == ps[k + 1]);
        }
        assert(piece_text(ps[0], b1, f1) == piece_text(ps[0], b2, f2));
        lemma_render_same(r, b1, f1, b2, f2);
    }
}

/// What the scan over the first `k` lines has built, told by its pieces.
pub open spec fn scan_pieces_inv(lines: Seq<Seq<char>>, k: nat, ps: Seq<Piece>) -> bool {
    let st = protect_scan(lines.take(k as int));
    &&& concat_lines(lines.take(k as int)) == render_pieces(ps, st.blocks, st.blocks.len()) + st.block
    &&& st.protected == render_pieces(ps, st.blocks, 0)
    &&& pieces_wf(ps, st.blocks)
    &&& no_mark(st.block)
    &&& (st.active is None ==> st.block.len() == 0)
    &&& (ps.len() > 0 && (k < lines.len() || st.active is Some)
        ==> ends_line(piece_text(ps.last(), st.blocks, st.blocks.len())))
}

proof fn lemma_scan_pieces(lines: Seq<Seq<char>>, k: nat) -> (ps: Seq<Piece>)
    requires
        k <= lines.len(),
        forall|t: int| 0 <= t < lines.len() ==> no_mark(#[trigger] lines[t]),
        forall|t: int| 0 <= t < lines.len() - 1 ==> ends_line(#[trigger] lines[t]),
    ensures
        scan_pieces_inv(lines, k, ps),
    decreases k,
{
    if k == 0 {
        assert(lines.take(0) =~= Seq::<Seq<char>>::empty());
        let ps = Seq::<Piece>::empty();
        assert(Seq::<char>::empty() + Seq::<char>::empty() =~= Seq::<char>::empty());
        return ps;
    }
    let ps0 = lemma_scan_pieces(lines, (k - 1) as nat);
    let pre = lines.take(k as int);
    assert(pre.drop_last() =~= lines.take(k - 1));
    assert(pre.last() == lines[k - 1]);
    let line = lines[k - 1];
    let st0 = protect_scan(lines.take(k - 1));
    let st = protect_scan(pre);
    assert(st == protect_step(st0, line));
    assert(concat_lines(pre) == concat_lines(lines.take(k - 1)) + line);
    let b0 = st0.blocks;
    let full0 = render_pieces(ps0, b0, b0.len());
    assert(k - 1 < lines.len() - 1 ==> ends_line(line));
    match st0.active {
        Some((c, n)) => {
            if spec_is_closing_fence(line, c, n) {
                let blk = st0.block + line;
                let b = b0.push(blk);
                let ps = ps0.push(Piece::Hole(b0.len()));
                lemma_no_mark_concat(st0.block, line);
                assert forall|q: int| 0 <= q < ps0.len() implies piece_text(#[trigger] ps0[q], b0, b0.len())
                    == piece_text(ps0[q], b, b.len()) && piece_text(ps0[q], b0, 0) == piece_text(ps0[q], b, 0) by {
                    assert(piece_ok(ps0[q], b0));
                }
                lemma_render_same(ps0, b0, b0.len(), b, b.len());
                lemma_render_same(ps0, b0, 0, b, 0);
                lemma_render_push(ps0, Piece::Hole(b0.len()), b, b.len());
                lemma_render_push(ps0, Piece::Hole(b0.len()), b, 0);
                assert(piece_text(Piece::Hole(b0.len()), b, b.len()) == blk);
                assert(piece_text(Piece::Hole(b0.len()), b, 0) == spec_placeholder(b0.len()));
                assert(full0 + st0.block + line =~= full0 + blk + Seq::<char>::empty());
                assert forall|q: int| 0 <= q < ps.len() implies piece_ok(#[trigger] ps[q], b) by {
                    if q < ps0.len() {
                        assert(ps[q] == ps0[q]);
                        assert(piece_ok(ps0[q], b0));
                    }
                }
                assert forall|j: int| 0 <= j < b.len() implies no_mark(#[trigger] b[j]) by {
                    if j < b0.len() {
                        assert(b[j] == b0[j]);
                    }
                }
                assert forall|q: int| 0 <= q < ps.len() - 1 implies ends_line(piece_text(#[trigger] ps[q], b, b.len())) by {
                    assert(ps[q] == ps0[q]);
                    if q < ps0.len() - 1 {
                        assert(ends_line(piece_text(ps0[q], b0, b0.len())));
                    } else {
                        assert(ps0.last() == ps0[q]);
                    }
                }
                if k < lines.len() {
                    lemma_ends_line_concat(st0.block, line);
                }
                assert(ps.last() == Piece::Hole(b0.len()));
                ps
            } else {
                lemma_no_mark_concat(st0.block, line);
                assert(full0 + st0.block + line =~= full0 + (st0.block + line));
                ps0
            }
        },
        None => {
            match spec_opening_fence(line) {
                Some(f) => {
                    assert(st0.block + line =~= line);
                    assert(full0 + st0.block + line =~= full0 + (st0.block + line));
                    ps0
                },
                None => {
                    let ps = ps0.push(Piece::Text(line));
                    lemma_render_push(ps0, Piece::Text(line), b0, b0.len());
                    lemma_render_push(ps0, Piece::Text(line), b0, 0);
                    assert(full0 + st0.block + line =~= full0 + line + st0.block);
                    assert forall|q: int| 0 <= q < ps.len() implies piece_ok(#[trigger] ps[q], b0) by {
                        if q < ps0.len() {
                            assert(ps[q] == ps0[q]);
                        }
                    }
                    assert forall|q: int| 0 <= q < ps.len() - 1 implies ends_line(piece_text(#[trigger] ps[q], b0, b0.len())) by {
                        assert(ps[q] == ps0[q]);
                        if q == ps0.len() - 1 {
                            assert(ps0.last() == ps0[q]);
                        }
                    }
                    assert(ps.last() == Piece::Text(line));
                    ps
                },
            }
        },
    }
}

proof fn lemma_join_split(s: Seq<char>, sep: char)
    ensures
        split_on(s, sep).len() >= 1,
        join_on(split_on(s, sep), sep) == s,
    decreases s.len(),
{
    if s.len() > 0 {
        lemma_join_split(s.drop_last(), sep);
        let p = split_on(s.drop_last(), sep);
        let q = split_on(s, sep);
        if s.last() == sep {
            assert(q.drop_last() =~= p);
            assert(s.drop_last().push(sep) + Seq::<char>::empty() =~= s);
        } else if p.len() == 1 {
            assert(q[0] == p[0].push(s.last()));
            assert(s.drop_last().push(s.last()) =~= s);
        } else {
            assert(q.drop_last() =~= p.drop_last());
            let j = join_on(p.drop_last(), sep).push(sep);
            assert(join_on(p, sep) == j + p.last());
            assert(j + p.last().push(s.last()) =~= (j + p.last()).push(s.last()));
            assert(s.drop_last().push(s.last()) =~= s);
            assert(q.last() == p.last().push(s.last()));
            assert(join_on(q, sep) == join_on(q.drop_last(), sep).push(sep) + q.last());
        }
    }
}

proof fn lemma_concat_pieces_join(p: Seq<Seq<char>>, sep: char)
    requires
        p.len() >= 1,
    ensures
        concat_lines(Seq::new((p.len() - 1) as nat, |i: int| p[i].push(sep))) + p.last() == join_on(p, sep),
    decreases p.len(),
{
    let n = p.len();
    let lines = Seq::new((n - 1) as nat, |i: int| p[i].push(sep));
    if n == 1 {
        assert(lines =~= Seq::<Seq<char>>::empty());
        assert(Seq::<char>::empty() + p.last() =~= p[0]);
    } else {
        let q = p.drop_last();
        lemma_concat_pieces_join(q, sep);
        let lq = Seq::new((q.len() - 1) as nat, |i: int| q[i].push(sep));
        assert(lines.drop_last() =~= lq);
        assert(lines.last() == p[n - 2].push(sep));
        assert(concat_lines(lq) + p[n - 2].push(sep) + p.last()
            =~= (concat_lines(lq) + q.last()).push(sep) + p.last());
    }
}

proof fn lemma_split_no_mark(s: Seq<char>, sep: char)
    requires
        no_mark(s),
    ensures
        forall|t: int| 0 <= t < split_on(s, sep).len() ==> no_mark(#[trigger] split_on(s, sep)[t]),
    decreases s.len(),
{
    if s.len() > 0 {
        assert(no_mark(s.drop_last())) by {
            assert forall|k: int| 0 <= k < s.drop_last().len() implies s.drop_last()[k] != private_use_mark() by {
                assert(s.drop_last()[k] == s[k]);
            }
        }
        lemma_split_no_mark(s.drop_last(), sep);
        lemma_join_split(s.drop_last(), sep);
        let p = split_on(s.drop_last(), sep);
        let q = split_on(s, sep);
        assert forall|t: int| 0 <= t < q.len() implies no_mark(#[trigger] q[t]) by {
            if s.last() != sep && t == p.len() - 1 {
                assert(q[t] == p.last().push(s.last()));
                assert(no_mark(p[t]));
                assert(s.last() == s[s.len() - 1]);
                assert forall|k: int| 0 <= k < q[t].len() implies q[t][k] != private_use_mark() by {
                    if k < p[t].len() {
                        assert(q[t][k] == p[t][k]);
                    }
                }
            } else if t < p.len() {
                assert(q[t] == p[t]);
            }
        }
    }
}

/// The lines of a chapter join back to it; all but the last end a line,
/// and none holds a mark that the chapter does not.
proof fn lemma_split_inclusive_lines(m: Seq<char>)
    requires
        no_mark(m),
    ensures
        concat_lines(split_inclusive(m)) == m,
        forall|t: int| 0 <= t < split_inclusive(m).len() ==> no_mark(#[trigger] split_inclusive(m)[t]),
        forall|t: int| 0 <= t < split_inclusive(m).len() - 1 ==> ends_line(#[trigger] split_inclusive(m)[t]),
{
    let p = split_on(m, '\n');
    lemma_join_split(m, '\n');
    lemma_split_no_mark(m, '\n');
    lemma_concat_pieces_join(p, '\n');
    let n = p.len();
    let lines = split_inclusive(m);
    let f = Seq::new((n - 1) as nat, |i: int| p[i].push('\n'));
    if p.last().len() == 0 {
        assert(lines =~= f);
        assert(concat_lines(f) + p.last() =~= concat_lines(f));
    } else {
        assert(lines.drop_last() =~= f);
        assert(lines.last() == p.last());
    }
    assert forall|t: int| 0 <= t < lines.len() implies no_mark(#[trigger] lines[t]) by {
        assert(no_mark(p[t]));
        if lines[t] != p[t] {
            assert(lines[t] == p[t].push('\n'));
            assert forall|k: int| 0 <= k < lines[t].len() implies lines[t][k] != private_use_mark() by {
                if k < p[t].len() {
                    assert(lines[t][k] == p[t][k]);
                }
            }
        }
    }
    assert forall|t: int| 0 <= t < lines.len() - 1 implies ends_line(#[trigger] lines[t]) by {
        assert(lines[t] == p[t].push('\n'));
    }
}

/// Taking the fenced code blocks out of a chapter and putting them back
/// gives the chapter as it was, when it holds no placeholder mark.
pub proof fn law_restore_undoes_protect(markdown: Seq<char>)
    requires
        !markdown.contains('\u{E000}'),
    ensures
        spec_restore(spec_protect(markdown).0, spec_protect(markdown).1) == markdown,
{
    assert(no_mark(markdown)) by {
        assert forall|k: int| 0 <= k < markdown.len() implies markdown[k] != private_use_mark() by {
            if markdown[k] == private_use_mark() {
                assert(markdown.contains('\u{E000}'));
            }
        }
    }
    lemma_split_inclusive_lines(markdown);
    let lines = split_inclusive(markdown);
    let ps0 = lemma_scan_pieces(lines, lines.len());
    assert(lines.take(lines.len() as int) =~= lines);
    let st = protect_scan(lines);
    let b = st.blocks;
    let ps = if st.active is Some { ps0.push(Piece::Text(st.block)) } else { ps0 };
    if st.active is Some {
        lemma_render_push(ps0, Piece::Text(st.block), b, 0);
        lemma_render_push(ps0, Piece::Text(st.block), b, b.len());
        assert forall|q: int| 0 <= q < ps.len() implies piece_ok(#[trigger] ps[q], b) by {
            if q < ps0.len() {
                assert(ps[q] == ps0[q]);
            }
        }
        assert forall|q: int| 0 <= q < ps.len() - 1 implies ends_line(piece_text(#[trigger] ps[q], b, b.len())) by {
            assert(ps[q] == ps0[q]);
            if q == ps0.len() - 1 {
                assert(ps0.last() == ps0[q]);
            }
        }
    } else {
        assert(st.protected + st.block =~= st.protected);
        assert(render_pieces(ps0, b, b.len()) + st.block =~= render_pieces(ps0, b, b.len()));
    }
    assert(pieces_wf(ps, b));
    assert(spec_protect(markdown).0 == render_pieces(ps, b, 0));
    assert(markdown == render_pieces(ps, b, b.len()));
    lemma_restore_fills(ps, b, b.len());
    assert(b.take(b.len() as int) =~= b);
}

} // verus!

//! File names for the Markdown chapters of a converted book.
use vstd::prelude::*;
use crate::text::{chars_of, string_of, sub_chars, collapse_whitespace, collapse_runs, is_ws, trim, trim_chars};
use crate::regex_calls::{regex_match, regex_is_match};

verus! {

broadcast use vstd::string::group_string_axioms;

/// Characters that would break a Markdown link or a path.
pub open spec fn is_link_hostile(c: char) -> bool {
    c == '/' || c == '\\' || c == ':' || c == '?' || c == '%' || c == '*' || c == '|'
        || c == '"' || c == '<' || c == '>' || c == '#' || c == '[' || c == ']' || c == '('
        || c == ')'
}

/// The pattern that selects one character of Unicode general category C
/// (controls, format characters, surrogates, private use, unassigned).
pub open spec fn other_category_pattern() -> Seq<char> {
    seq!['^', '\\', 'p', '{', 'C', '}', '$']
}

/// Whether the regex crate puts `c` in Unicode category C.
pub open spec fn is_other_category(c: char) -> bool {
    regex_match(other_category_pattern(), seq![c])
}

/// The characters that a chapter file name replaces with `-`.
pub open spec fn is_replaced_in_name(c: char) -> bool {
    is_link_hostile(c) || is_other_category(c)
}

pub open spec fn replace_hostile(s: Seq<char>) -> Seq<char> {
    Seq::new(s.len(), |i: int| if is_replaced_in_name(s[i]) { '-' } else { s[i] })
}

/// Runs of `c` squeezed to one `c`.
pub open spec fn squeeze(s: Seq<char>, c: char) -> Seq<char>
    decreases s.len(),
{
    if s.len() == 0 {
        s
    } else if s.last() == c && s.len() > 1 && s[s.len() - 2] == c {
        squeeze(s.drop_last(), c)
    } else {
        squeeze(s.drop_last(), c).push(s.last())
    }
}

/// Characters trimmed from both ends of a chapter name.
pub open spec fn is_name_edge(c: char) -> bool {
    c == ' ' || c == '.' || c == '-' || c == '_'
}

pub open spec fn trim_start_by(s: Seq<char>, p: spec_fn(char) -> bool) -> Seq<char>
    decreases s.len(),
{
    if s.len() > 0 && p(s[0]) {
        trim_start_by(s.drop_first(), p)
    } else {
        s
    }
}

pub open spec fn trim_end_by(s: Seq<char>, p: spec_fn(char) -> bool) -> Seq<char>
    decreases s.len(),
{
    if s.len() > 0 && p(s.last()) {
        trim_end_by(s.drop_last(), p)
    } else {
        s
    }
}

pub open spec fn name_edge() -> spec_fn(char) -> bool {
    |c: char| is_name_edge(c)
}

pub open spec fn chapter_word() -> Seq<char> {
    seq!['c', 'h', 'a', 'p', 't', 'e', 'r']
}

/// A title turned into one path segment that is safe inside a Markdown
/// link: hostile and control characters and whitespace become `-`,
/// dashes are squeezed, and `" ._-"` is trimmed from the ends.
pub open spec fn spec_sanitize_segment(input: Seq<char>) -> Seq<char> {
    let v = trim_end_by(trim_start_by(
        squeeze(collapse_runs(replace_hostile(input), '-'), '-'), name_edge()), name_edge());
    if v.len() == 0 { chapter_word() } else { v }
}

/// Whether the regex crate puts `c` in category C.
fn other_category(c: char) -> (r: bool)
    ensures
        r == is_other_category(c),
{
    let one = string_of(&vec![c]);
    assert(one@ =~= seq![c]);
    let pattern = "^\\p{C}$";
    proof {
        reveal_strlit("^\\p{C}$");
        assert(pattern@ =~= other_category_pattern());
    }
    regex_is_match(pattern, one.as_str())
}

fn link_hostile(c: char) -> (r: bool)
    ensures
        r == is_link_hostile(c),
{
    c == '/' || c == '\\' || c == ':' || c == '?' || c == '%' || c == '*' || c == '|'
        || c == '"' || c == '<' || c == '>' || c == '#' || c == '[' || c == ']' || c == '('
        || c == ')'
}

fn squeeze_chars(v: &Vec<char>, c: char) -> (res: Vec<char>)
    ensures
        res@ == squeeze(v@, c),
{
    let mut res: Vec<char> = Vec::new();
    let mut i: usize = 0;
    while i < v.len()
        invariant
            i <= v.len(),
            res@ == squeeze(v@.take(i as int), c),
        decreases v.len() - i,
    {
        let ghost t = v@.take(i + 1);
        assert(t.drop_last() =~= v@.take(i as int));
        if v[i] == c && i > 0 && v[i - 1] == c {
            assert(t[t.len() - 2] == v@[i - 1]);
        } else {
            res.push(v[i]);
        }
        i += 1;
    }
    assert(v@.take(v.len() as int) =~= v@);
    res
}

fn trim_name_edges(v: &Vec<char>) -> (res: Vec<char>)
    ensures
        res@ == trim_end_by(trim_start_by(v@, name_edge()), name_edge()),
{
    let mut start: usize = 0;
    assert(v@.subrange(0, v.len() as int) =~= v@);
    while start < v.len() && (v[start] == ' ' || v[start] == '.' || v[start] == '-' || v[start] == '_')
        invariant
            start <= v.len(),
            trim_start_by(v@, name_edge()) == trim_start_by(v@.subrange(start as int, v.len() as int), name_edge()),
        decreases v.len() - start,
    {
        assert(v@.subrange(start + 1, v.len() as int) =~= v@.subrange(start as int, v.len() as int).drop_first());
        start += 1;
    }
    let mut end = v.len();
    while end > start && (v[end - 1] == ' ' || v[end - 1] == '.' || v[end - 1] == '-' || v[end - 1] == '_')
        invariant
            start <= end <= v.len(),
            trim_start_by(v@, name_edge()) == trim_start_by(v@.subrange(start as int, v.len() as int), name_edge()),
            !(start < v.len() && is_name_edge(v@[start as int])),
            trim_end_by(trim_start_by(v@, name_edge()), name_edge())
                == trim_end_by(v@.subrange(start as int, end as int), name_edge()),
        decreases end,
    {
        assert(v@.subrange(start as int, end - 1) =~= v@.subrange(start as int, end as int).drop_last());
        end -= 1;
    }
    sub_chars(v, start, end)
}

/// One path segment for a chapter file name, safe inside a Markdown link.
pub fn sanitize_markdown_path_segment(input: &str) -> (res: Vec<char>)
    ensures
        res@ == spec_sanitize_segment(input@),
{
    let chars = chars_of(input);
    let mut replaced: Vec<char> = Vec::new();
    let mut i: usize = 0;
    while i < chars.len()
        invariant
            i <= chars.len(),
            chars@ == input@,
            replaced@ == replace_hostile(input@).take(i as int),
        decreases chars.len() - i,
    {
        let c = chars[i];
        let r = if link_hostile(c) || other_category(c) { '-' } else { c };
        replaced.push(r);
        assert(replace_hostile(input@).take(i + 1) =~= replace_hostile(input@).take(i as int).push(r));
        i += 1;
    }
    assert(replace_hostile(input@).take(chars.len() as int) =~= replace_hostile(input@));
    let dashed = collapse_whitespace(&replaced, '-');
    let squeezed = squeeze_chars(&dashed, '-');
    let trimmed = trim_name_edges(&squeezed);
    if trimmed.len() == 0 {
        let w = vec!['c', 'h', 'a', 'p', 't', 'e', 'r'];
        assert(w@ =~= chapter_word());
        w
    } else {
        trimmed
    }
}


/// No whitespace and nothing that breaks a Markdown link.
pub open spec fn is_link_safe(c: char) -> bool {
    !is_ws(c) && !is_link_hostile(c)
}

pub open spec fn all_chars(s: Seq<char>, p: spec_fn(char) -> bool) -> bool {
    forall|i: int| 0 <= i < s.len() ==> p(#[trigger] s[i])
}

proof fn lemma_collapse_keeps(s: Seq<char>, rep: char, p: spec_fn(char) -> bool)
    requires
        forall|i: int| 0 <= i < s.len() ==> is_ws(#[trigger] s[i]) || p(s[i]),
        p(rep),
        !is_ws(rep),
    ensures
        forall|i: int| 0 <= i < collapse_runs(s, rep).len() ==>
            p(#[trigger] collapse_runs(s, rep)[i]) && !is_ws(collapse_runs(s, rep)[i]),
    decreases s.len(),
{
    if s.len() > 0 {
        let t = s.drop_last();
        assert forall|i: int| 0 <= i < t.len() implies is_ws(#[trigger] t[i]) || p(t[i]) by {
            assert(t[i] == s[i]);
        }
        lemma_collapse_keeps(t, rep, p);
        assert(is_ws(s[s.len() - 1]) || p(s[s.len() - 1]));
        let c = collapse_runs(t, rep);
        assert forall|i: int| 0 <= i < c.push(rep).len() implies
            p(#[trigger] c.push(rep)[i]) && !is_ws(c.push(rep)[i]) by {
            if i < c.len() { assert(c.push(rep)[i] == c[i]); }
        }
        assert forall|i: int| 0 <= i < c.push(s.last()).len() && !is_ws(s.last()) implies
            p(#[trigger] c.push(s.last())[i]) && !is_ws(c.push(s.last())[i]) by {
            if i < c.len() { assert(c.push(s.last())[i] == c[i]); }
        }
    }
}

proof fn lemma_squeeze_keeps(s: Seq<char>, ch: char, p: spec_fn(char) -> bool)
    requires
        all_chars(s, p),
    ensures
        all_chars(squeeze(s, ch), p),
    decreases s.len(),
{
    if s.len() > 0 {
        let t = s.drop_last();
        assert forall|i: int| 0 <= i < t.len() implies p(#[trigger] t[i]) by {
            assert(t[i] == s[i]);
        }
        lemma_squeeze_keeps(t, ch, p);
        let q = squeeze(t, ch);
        assert(p(s[s.len() - 1]));
        assert forall|i: int| 0 <= i < q.push(s.last()).len() implies p(#[trigger] q.push(s.last())[i]) by {
            if i < q.len() { assert(q.push(s.last())[i] == q[i]); }
        }
    }
}

proof fn lemma_trim_by_keeps(s: Seq<char>, e: spec_fn(char) -> bool, p: spec_fn(char) -> bool)
    requires
        all_chars(s, p),
    ensures
        all_chars(trim_start_by(s, e), p),
        all_chars(trim_end_by(s, e), p),
    decreases s.len(),
{
    if s.len() > 0 {
        let t = s.drop_first();
        assert forall|i: int| 0 <= i < t.len() implies p(#[trigger] t[i]) by {
            assert(t[i] == s[i + 1]);
        }
        lemma_trim_by_keeps(t, e, p);
        let u = s.drop_last();
        assert forall|i: int| 0 <= i < u.len() implies p(#[trigger] u[i]) by {
            assert(u[i] == s[i]);
        }
        lemma_trim_by_keeps(u, e, p);
    }
}

/// A sanitised segment holds no whitespace and no character that breaks
/// a Markdown link.
pub proof fn law_sanitized_segment_is_link_safe(input: Seq<char>)
    ensures
        all_chars(spec_sanitize_segment(input), |c: char| is_link_safe(c)),
        spec_sanitize_segment(input).len() > 0,
{
    let p = |c: char| !is_link_hostile(c);
    let r = replace_hostile(input);
    assert forall|i: int| 0 <= i < r.len() implies is_ws(#[trigger] r[i]) || p(r[i]) by {}
    lemma_collapse_keeps(r, '-', p);
    let c = collapse_runs(r, '-');
    let safe = |x: char| is_link_safe(x);
    assert(all_chars(c, safe));
    lemma_squeeze_keeps(c, '-', safe);
    let q = squeeze(c, '-');
    lemma_trim_by_keeps(q, name_edge(), safe);
    lemma_trim_by_keeps(trim_start_by(q, name_edge()), name_edge(), safe);
    let w = chapter_word();
    assert(all_chars(w, safe)) by {
        assert forall|i: int| 0 <= i < w.len() implies safe(#[trigger] w[i]) by {
            assert(w[i] == 'c' || w[i] == 'h' || w[i] == 'a' || w[i] == 'p' || w[i] == 't'
                || w[i] == 'e' || w[i] == 'r');
        }
    }
}

/// The decimal digits of `n`.
pub open spec fn decimal(n: nat) -> Seq<char>
    decreases n,
{
    if n < 10 {
        seq![digit_char(n)]
    } else {
        decimal(n / 10).push(digit_char(n % 10))
    }
}

pub open spec fn digit_char(d: nat) -> char {
    if d == 0 { '0' } else if d == 1 { '1' } else if d == 2 { '2' } else if d == 3 { '3' }
    else if d == 4 { '4' } else if d == 5 { '5' } else if d == 6 { '6' } else if d == 7 { '7' }
    else if d == 8 { '8' } else { '9' }
}

/// `format!("{n:03}")`: the digits, padded with zeros to three.
pub open spec fn padded3(n: nat) -> Seq<char> {
    let d = decimal(n);
    if d.len() >= 3 { d } else { Seq::new((3 - d.len()) as nat, |i: int| '0') + d }
}

fn digit(d: usize) -> (c: char)
    requires
        d < 10,
    ensures
        c == digit_char(d as nat),
{
    if d == 0 { '0' } else if d == 1 { '1' } else if d == 2 { '2' } else if d == 3 { '3' }
    else if d == 4 { '4' } else if d == 5 { '5' } else if d == 6 { '6' } else if d == 7 { '7' }
    else if d == 8 { '8' } else { '9' }
}

/// Appends the decimal digits of `n`.
pub fn push_decimal(out: &mut Vec<char>, n: usize)
    ensures
        final(out)@ == old(out)@ + decimal(n as nat),
    decreases n,
{
    if n >= 10 {
        push_decimal(out, n / 10);
    }
    let ghost before = out@;
    out.push(digit(n % 10));
    proof {
        if n < 10 {
            assert(out@ =~= old(out)@ + decimal(n as nat));
        } else {
            assert(out@ =~= old(out)@ + decimal(n as nat));
        }
    }
}

/// Appends the decimal digits of `n`, a counter wider than `usize`.
pub fn push_decimal_wide(out: &mut Vec<char>, n: u128)
    ensures
        final(out)@ == old(out)@ + decimal(n as nat),
    decreases n,
{
    if n >= 10 {
        push_decimal_wide(out, n / 10);
    }
    let d = (n % 10) as usize;
    out.push(digit(d));
    proof {
        assert(out@ =~= old(out)@ + decimal(n as nat));
    }
}

pub proof fn lemma_decimal_nonempty(n: nat)
    ensures
        decimal(n).len() >= 1,
    decreases n,
{
    if n >= 10 {
        lemma_decimal_nonempty(n / 10);
    }
}

/// Appends the decimal digits of `n`, zero-padded to three.
pub fn push_padded3(out: &mut Vec<char>, n: usize)
    ensures
        final(out)@ == old(out)@ + padded3(n as nat),
{
    let mut digits: Vec<char> = Vec::new();
    push_decimal(&mut digits, n);
    assert(digits@ =~= decimal(n as nat));
    let mut pad: usize = 0;
    if digits.len() < 3 {
        pad = 3 - digits.len();
    }
    let ghost start = out@;
    let mut i: usize = 0;
    while i < pad
        invariant
            i <= pad,
            out@ == start + Seq::new(i as nat, |k: int| '0'),
        decreases pad - i,
    {
        out.push('0');
        assert(Seq::new((i + 1) as nat, |k: int| '0') =~= Seq::new(i as nat, |k: int| '0').push('0'));
        i += 1;
    }
    crate::text::append_chars(out, &digits);
    proof {
        if digits.len() >= 3 {
            assert(Seq::new(0, |k: int| '0') =~= Seq::<char>::empty());
            assert(out@ =~= old(out)@ + padded3(n as nat));
        } else {
            assert(out@ =~= old(out)@ + padded3(n as nat));
        }
    }
}

pub open spec fn md_suffix() -> Seq<char> {
    seq!['.', 'm', 'd']
}

/// The name that a chapter is used under when it has no usable title.
pub open spec fn spec_fallback_stem(fallback: Seq<char>) -> Seq<char> {
    match crate::paths::spec_file_stem(fallback) {
        Some(stem) => stem,
        None => chapter_word(),
    }
}

pub open spec fn spec_chapter_base(title: Option<Seq<char>>, fallback: Seq<char>) -> Seq<char> {
    match title {
        Some(t) => if trim(t).len() > 0 { t } else { spec_fallback_stem(fallback) },
        None => spec_fallback_stem(fallback),
    }
}

/// `format!("{index:03}-{base}.md")` with the sanitised title (or the
/// file stem of `fallback` when the title is blank or missing).
pub open spec fn spec_chapter_file_name(index: nat, title: Option<Seq<char>>, fallback: Seq<char>) -> Seq<char> {
    padded3(index).push('-') + spec_sanitize_segment(spec_chapter_base(title, fallback)) + md_suffix()
}

/// The file name of the `index`-th chapter.
pub fn chapter_file_name(index: usize, title: Option<&str>, fallback: &str) -> (res: String)
    ensures
        res@ == spec_chapter_file_name(index as nat, match title { Some(t) => Some(t@), None => None }, fallback@),
{
    let base: Vec<char> = match title {
        Some(t) if trim_chars(&chars_of(t)).len() > 0 => sanitize_markdown_path_segment(t),
        _ => {
            match crate::paths::file_stem(fallback) {
                Some(stem) => sanitize_markdown_path_segment(string_of(&stem).as_str()),
                None => sanitize_markdown_path_segment("chapter"),
            }
        },
    };
    proof {
        reveal_strlit("chapter");
        assert("chapter"@ =~= chapter_word());
    }
    let mut out: Vec<char> = Vec::new();
    push_padded3(&mut out, index);
    out.push('-');
    crate::text::append_chars(&mut out, &base);
    out.push('.');
    out.push('m');
    out.push('d');
    assert(out@ =~= padded3(index as nat).push('-') + base@ + md_suffix());
    string_of(&out)
}

/// Chapter file names are safe inside a Markdown link: no whitespace,
/// no link-breaking character, and they end in `.md`.
pub proof fn law_chapter_file_name_is_link_safe(index: nat, title: Option<Seq<char>>, fallback: Seq<char>)
    ensures
        all_chars(spec_chapter_file_name(index, title, fallback), |c: char| is_link_safe(c)),
        spec_chapter_file_name(index, title, fallback).len() >= 3,
        spec_chapter_file_name(index, title, fallback).skip(
            spec_chapter_file_name(index, title, fallback).len() - 3) == md_suffix(),
{
    let safe = |c: char| is_link_safe(c);
    let base = spec_sanitize_segment(spec_chapter_base(title, fallback));
    law_sanitized_segment_is_link_safe(spec_chapter_base(title, fallback));
    lemma_decimal_digits(index);
    let pre = padded3(index).push('-');
    assert(all_chars(pre, safe)) by {
        let d = decimal(index);
        assert forall|i: int| 0 <= i < pre.len() implies safe(#[trigger] pre[i]) by {
            if i < pre.len() - 1 {
                if d.len() < 3 {
                    let z = Seq::new((3 - d.len()) as nat, |k: int| '0');
                    if i >= z.len() {
                        assert(pre[i] == d[i - z.len()]);
                    }
                }
            }
        }
    }
    let full = pre + base + md_suffix();
    assert forall|i: int| 0 <= i < full.len() implies safe(#[trigger] full[i]) by {
        if i < pre.len() {
            assert(full[i] == pre[i]);
        } else if i < pre.len() + base.len() {
            assert(full[i] == base[i - pre.len()]);
        } else {
            assert(full[i] == md_suffix()[i - pre.len() - base.len()]);
        }
    }
    assert(full.skip(full.len() - 3) =~= md_suffix());
}



pub open spec fn is_digit_char(c: char) -> bool {
    '0' <= c && c <= '9'
}

proof fn lemma_decimal_digits(n: nat)
    ensures
        decimal(n).len() >= 1,
        forall|k: int| 0 <= k < decimal(n).len() ==> is_digit_char(#[trigger] decimal(n)[k]),
        n >= 1 ==> decimal(n)[0] != '0',
    decreases n,
{
    if n >= 10 {
        lemma_decimal_digits(n / 10);
        let d = decimal(n);
        let p = decimal(n / 10);
        assert forall|k: int| 0 <= k < d.len() implies is_digit_char(#[trigger] d[k]) by {
            if k < p.len() {
                assert(d[k] == p[k]);
            } else {
                assert(d[k] == digit_char(n % 10));
            }
        }
        assert(d[0] == p[0]);
    }
}

/// The padding zeros, then the digits of `n`, the first not a zero.
proof fn lemma_padded3_shape(n: nat)
    requires
        n >= 1,
    ensures
        padded3(n).len() >= decimal(n).len(),
        padded3(n).skip(padded3(n).len() - decimal(n).len()) == decimal(n),
        forall|k: int| 0 <= k < padded3(n).len() - decimal(n).len() ==> #[trigger] padded3(n)[k] == '0',
        padded3(n)[padded3(n).len() - decimal(n).len()] != '0',
        forall|k: int| 0 <= k < padded3(n).len() ==> is_digit_char(#[trigger] padded3(n)[k]),
{
    lemma_decimal_digits(n);
    let p = padded3(n);
    let d = decimal(n);
    let z = p.len() - d.len();
    assert(p.skip(z) =~= d);
    assert(p[z] == d[0]);
    assert forall|k: int| 0 <= k < p.len() implies is_digit_char(#[trigger] p[k]) by {
        if k >= z {
            assert(p[k] == d[k - z]);
        }
    }
}

/// Chapter file names with different numbers differ.
pub proof fn lemma_chapter_file_names_differ(
    a: nat,
    b: nat,
    ta: Option<Seq<char>>,
    tb: Option<Seq<char>>,
    fa: Seq<char>,
    fb: Seq<char>,
)
    requires
        1 <= a,
        1 <= b,
        a != b,
    ensures
        spec_chapter_file_name(a, ta, fa) != spec_chapter_file_name(b, tb, fb),
{
    let na = spec_chapter_file_name(a, ta, fa);
    let nb = spec_chapter_file_name(b, tb, fb);
    let pa = padded3(a);
    let pb = padded3(b);
    lemma_padded3_shape(a);
    lemma_padded3_shape(b);
    if na == nb {
        assert(na[pa.len() as int] == '-');
        assert(nb[pb.len() as int] == '-');
        assert forall|k: int| 0 <= k < pa.len() implies na[k] == pa[k] by {}
        assert forall|k: int| 0 <= k < pb.len() implies nb[k] == pb[k] by {}
        if pa.len() < pb.len() {
            assert(is_digit_char(pb[pa.len() as int]));
            assert(false);
        } else if pb.len() < pa.len() {
            assert(is_digit_char(pa[pb.len() as int]));
            assert(false);
        }
        assert(pa =~= pb);
        let za = pa.len() - decimal(a).len();
        let zb = pb.len() - decimal(b).len();
        if za < zb {
            assert(pb[za] == '0');
            assert(false);
        } else if zb < za {
            assert(pa[zb] == '0');
            assert(false);
        }
        assert(decimal(a) == decimal(b));
        crate::segments::lemma_decimal_injective(a, b);
    }
}

} // verus!

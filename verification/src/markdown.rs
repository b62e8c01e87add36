//! Small Markdown and JSON text builders.
use vstd::prelude::*;
use crate::text::{chars_of, string_of, push_str, append_chars, flat_map, lemma_flat_map_push};

verus! {

broadcast use vstd::string::group_string_axioms;

/// Length of the run of `c` that ends `s`.
pub open spec fn trailing_run(s: Seq<char>, c: char) -> nat
    decreases s.len(),
{
    if s.len() > 0 && s.last() == c { trailing_run(s.drop_last(), c) + 1 } else { 0 }
}

/// Length of the longest run of `c` in `s`.
pub open spec fn longest_run(s: Seq<char>, c: char) -> nat
    decreases s.len(),
{
    if s.len() == 0 {
        0
    } else {
        let rest = longest_run(s.drop_last(), c);
        let here = trailing_run(s, c);
        if here > rest { here } else { rest }
    }
}

/// The length of the longest run of `needle` in `value`.
pub fn longest_repeated_char_run(value: &str, needle: char) -> (res: usize)
    ensures
        res == longest_run(value@, needle),
{
    let v = chars_of(value);
    let mut longest: usize = 0;
    let mut current: usize = 0;
    let mut i: usize = 0;
    while i < v.len()
        invariant
            i <= v.len(),
            v@ == value@,
            current == trailing_run(v@.take(i as int), needle),
            longest == longest_run(v@.take(i as int), needle),
            current <= i,
            longest <= i,
        decreases v.len() - i,
    {
        let ghost t = v@.take(i + 1);
        assert(t.drop_last() =~= v@.take(i as int));
        if v[i] == needle {
            current += 1;
            if current > longest {
                longest = current;
            }
        } else {
            current = 0;
        }
        i += 1;
    }
    assert(v@.take(v.len() as int) =~= v@);
    longest
}

/// `n` copies of `c`.
pub open spec fn repeat(c: char, n: nat) -> Seq<char> {
    Seq::new(n, |i: int| c)
}

/// One more backtick than the longest run in `code` (the count wrapping
/// to zero, as `usize` addition does, at `usize::MAX`), and at least three.
pub open spec fn spec_code_fence(code: Seq<char>) -> Seq<char> {
    let l = longest_run(code, '`');
    let n = if l >= usize::MAX { 0 } else { l + 1 };
    repeat('`', if n > 3 { n } else { 3 })
}

pub fn repeat_char(c: char, n: usize) -> (res: Vec<char>)
    ensures
        res@ == repeat(c, n as nat),
{
    let mut res: Vec<char> = Vec::new();
    let mut i: usize = 0;
    while i < n
        invariant
            i <= n,
            res@ == repeat(c, i as nat),
        decreases n - i,
    {
        res.push(c);
        assert(repeat(c, (i + 1) as nat) =~= repeat(c, i as nat).push(c));
        i += 1;
    }
    res
}

/// A backtick fence longer than every backtick run in `code`, and at
/// least three long.
pub fn code_fence_for(code: &str) -> (res: Vec<char>)
    ensures
        res@ == spec_code_fence(code@),
{
    let longest = longest_repeated_char_run(code, '`');
    let n = if longest == usize::MAX { 3 } else if longest >= 3 { longest + 1 } else { 3 };
    repeat_char('`', n)
}

proof fn lemma_longest_run_bound(s: Seq<char>, c: char)
    ensures
        longest_run(s, c) <= s.len(),
        trailing_run(s, c) <= s.len(),
    decreases s.len(),
{
    if s.len() > 0 {
        lemma_longest_run_bound(s.drop_last(), c);
    }
}

pub open spec fn spec_fenced_code_block(code: Seq<char>) -> Seq<char> {
    let fence = spec_code_fence(code);
    let sep = if code.len() > 0 && code.last() == '\n' { Seq::<char>::empty() } else { seq!['\n'] };
    fence.push('\n') + code + sep + fence
}

/// `code` inside a fence that it cannot close.
pub fn fenced_code_block(code: &str) -> (res: String)
    ensures
        res@ == spec_fenced_code_block(code@),
{
    let fence = code_fence_for(code);
    let v = chars_of(code);
    let mut out: Vec<char> = Vec::new();
    append_chars(&mut out, &fence);
    out.push('\n');
    append_chars(&mut out, &v);
    if !(v.len() > 0 && v[v.len() - 1] == '\n') {
        out.push('\n');
    }
    append_chars(&mut out, &fence);
    proof {
        let sep = if code@.len() > 0 && code@.last() == '\n' { Seq::<char>::empty() } else { seq!['\n'] };
        assert(out@ =~= fence@.push('\n') + code@ + sep + fence@);
    }
    string_of(&out)
}

proof fn lemma_run_within_longest(s: Seq<char>, c: char, i: int, j: int)
    requires
        0 <= i <= j <= s.len(),
        forall|k: int| i <= k < j ==> s[k] == c,
    ensures
        j - i <= longest_run(s, c),
    decreases s.len(),
{
    if j == s.len() {
        lemma_trailing_run_at_least(s, c, i);
    } else {
        lemma_run_within_longest(s.drop_last(), c, i, j);
    }
}

proof fn lemma_trailing_run_at_least(s: Seq<char>, c: char, i: int)
    requires
        0 <= i <= s.len(),
        forall|k: int| i <= k < s.len() ==> s[k] == c,
    ensures
        s.len() - i <= trailing_run(s, c),
    decreases s.len(),
{
    if i < s.len() {
        assert(s.last() == c);
        lemma_trailing_run_at_least(s.drop_last(), c, i);
    }
}

/// The fence of a code block is at least three backticks and longer than
/// any run of backticks inside the code, so the code cannot close it.
pub proof fn law_fence_outlasts_code(code: Seq<char>, i: int, j: int)
    requires
        code.len() < usize::MAX,
        0 <= i <= j <= code.len(),
        forall|k: int| i <= k < j ==> code[k] == '`',
    ensures
        j - i < spec_code_fence(code).len(),
        spec_code_fence(code).len() >= 3,
        forall|k: int| 0 <= k < spec_code_fence(code).len() ==> #[trigger] spec_code_fence(code)[k] == '`',
{
    lemma_run_within_longest(code, '`', i, j);
    lemma_longest_run_bound(code, '`');
}

/// What `json_escape` writes for one character.
pub open spec fn json_char(c: char) -> Seq<char> {
    if c == '"' {
        seq!['\\', '"']
    } else if c == '\\' {
        seq!['\\', '\\']
    } else if c == '\n' {
        seq!['\\', 'n']
    } else if c == '\r' {
        seq!['\\', 'r']
    } else if c == '\t' {
        seq!['\\', 't']
    } else if is_control(c) {
        seq!['\\', 'u', '0', '0', hex_digit((c as u32 / 16) as nat), hex_digit((c as u32 % 16) as nat)]
    } else {
        seq![c]
    }
}

/// `char::is_control`: general category Cc.
pub open spec fn is_control(c: char) -> bool {
    (c as u32) <= 0x1f || (0x7f <= (c as u32) && (c as u32) <= 0x9f)
}

pub open spec fn hex_digit(d: nat) -> char {
    if d < 10 { ((d + 48) as u32) as char } else { ((d + 87) as u32) as char }
}

pub open spec fn json_escape_fn() -> spec_fn(char) -> Seq<char> {
    |c: char| json_char(c)
}

pub open spec fn spec_json_escape(s: Seq<char>) -> Seq<char> {
    flat_map(s, json_escape_fn())
}

fn hex(d: u32) -> (c: char)
    requires
        d < 16,
    ensures
        c == hex_digit(d as nat),
{
    if d < 10 {
        crate::text::char_from_ascii((d + 48) as u8)
    } else {
        crate::text::char_from_ascii((d + 87) as u8)
    }
}

fn push_json_char(out: &mut Vec<char>, c: char)
    ensures
        final(out)@ == old(out)@ + json_char(c),
{
    if c == '"' {
        out.push('\\');
        out.push('"');
    } else if c == '\\' {
        out.push('\\');
        out.push('\\');
    } else if c == '\n' {
        out.push('\\');
        out.push('n');
    } else if c == '\r' {
        out.push('\\');
        out.push('r');
    } else if c == '\t' {
        out.push('\\');
        out.push('t');
    } else if (c as u32) <= 0x1f || (0x7f <= (c as u32) && (c as u32) <= 0x9f) {
        let n = c as u32;
        out.push('\\');
        out.push('u');
        out.push('0');
        out.push('0');
        out.push(hex(n / 16));
        out.push(hex(n % 16));
    } else {
        out.push(c);
    }
    assert(out@ =~= old(out)@ + json_char(c));
}

/// Escapes `value` for use inside a JSON string literal.
pub fn json_escape(value: &str) -> (res: String)
    ensures
        res@ == spec_json_escape(value@),
{
    let v = chars_of(value);
    let mut out: Vec<char> = Vec::new();
    let mut i: usize = 0;
    while i < v.len()
        invariant
            i <= v.len(),
            v@ == value@,
            out@ == flat_map(v@.take(i as int), json_escape_fn()),
        decreases v.len() - i,
    {
        push_json_char(&mut out, v[i]);
        proof {
            assert(v@.take(i + 1) =~= v@.take(i as int).push(v@[i as int]));
            lemma_flat_map_push(v@.take(i as int), v@[i as int], json_escape_fn());
        }
        i += 1;
    }
    assert(v@.take(v.len() as int) =~= v@);
    string_of(&out)
}

proof fn lemma_json_no_control(s: Seq<char>)
    ensures
        forall|k: int| 0 <= k < spec_json_escape(s).len() ==> !is_control(#[trigger] spec_json_escape(s)[k]),
    decreases s.len(),
{
    if s.len() > 0 {
        lemma_json_no_control(s.drop_last());
        let a = spec_json_escape(s.drop_last());
        let b = json_char(s.last());
        let c = s.last();
        assert(json_escape_fn()(c) == json_char(c));
        assert forall|k: int| 0 <= k < b.len() implies !is_control(#[trigger] b[k]) by {
            if is_control(c) && c != '\n' && c != '\r' && c != '\t' && c != '"' && c != '\\' {
                let n = c as u32;
                assert(n <= 159);
                assert(n / 16 < 16);
                if k == 4 {
                    assert(b[k] == hex_digit((n / 16) as nat));
                }
                if k == 5 {
                    assert(b[k] == hex_digit((n % 16) as nat));
                }
            }
        }
        assert forall|k: int| 0 <= k < (a + b).len() implies !is_control(#[trigger] (a + b)[k]) by {
            if k < a.len() { assert((a + b)[k] == a[k]); } else { assert((a + b)[k] == b[k - a.len()]); }
        }
    }
}

/// JSON-escaped text holds no raw control character.
pub proof fn law_json_escape_has_no_control(s: Seq<char>)
    ensures
        forall|k: int| 0 <= k < spec_json_escape(s).len() ==> !is_control(#[trigger] spec_json_escape(s)[k]),
{
    lemma_json_no_control(s);
}

/// The value of a hexadecimal digit.
pub open spec fn hex_value(c: char) -> Option<nat> {
    let n = c as u32;
    if 48 <= n <= 57 {
        Some((n - 48) as nat)
    } else if 97 <= n <= 102 {
        Some((n - 87) as nat)
    } else if 65 <= n <= 70 {
        Some((n - 55) as nat)
    } else {
        None
    }
}

/// The number that four hexadecimal digits from `k` on write.
pub open spec fn hex4(s: Seq<char>, k: int) -> Option<nat> {
    if k < 0 || s.len() < k + 4 {
        None
    } else {
        match (hex_value(s[k]), hex_value(s[k + 1]), hex_value(s[k + 2]), hex_value(s[k + 3])) {
            (Some(a), Some(b), Some(c), Some(d)) => Some(a * 4096 + b * 256 + c * 16 + d),
            _ => None,
        }
    }
}

/// The text that the inside of a JSON string literal stands for, as
/// RFC 8259 reads it: `None` when it is no valid string content (a raw
/// `"` or control character, or a bad escape).
pub open spec fn json_string_content(s: Seq<char>) -> Option<Seq<char>>
    decreases s.len(),
{
    if s.len() == 0 {
        Some(Seq::empty())
    } else if s[0] == '"' || (s[0] as u32) < 0x20 {
        None
    } else if s[0] != '\\' {
        match json_string_content(s.drop_first()) {
            Some(r) => Some(seq![s[0]] + r),
            None => None,
        }
    } else if s.len() < 2 {
        None
    } else {
        let e = s[1];
        let simple = if e == '"' { Some('"') } else if e == '\\' { Some('\\') } else if e == '/' { Some('/') }
            else if e == 'b' { Some('\u{8}') } else if e == 'f' { Some('\u{c}') } else if e == 'n' { Some('\n') }
            else if e == 'r' { Some('\r') } else if e == 't' { Some('\t') } else { None };
        match simple {
            Some(c) => match json_string_content(s.skip(2)) {
                Some(r) => Some(seq![c] + r),
                None => None,
            },
            None => if e == 'u' {
                match hex4(s, 2) {
                    Some(h) => if 0xD800 <= h <= 0xDBFF {
                        let low = if s.len() >= 12 && s[6] == '\\' && s[7] == 'u' { hex4(s, 8) } else { None };
                        match low {
                            Some(l) => if 0xDC00 <= l <= 0xDFFF {
                                let c = ((0x10000 + (h - 0xD800) * 0x400 + (l - 0xDC00)) as u32) as char;
                                match json_string_content(s.skip(12)) {
                                    Some(r) => Some(seq![c] + r),
                                    None => None,
                                }
                            } else {
                                None
                            },
                            None => None,
                        }
                    } else if 0xDC00 <= h <= 0xDFFF {
                        None
                    } else {
                        match json_string_content(s.skip(6)) {
                            Some(r) => Some(seq![(h as u32) as char] + r),
                            None => None,
                        }
                    },
                    None => None,
                }
            } else {
                None
            },
        }
    }
}

/// The text that a JSON string literal stands for.
pub open spec fn json_string_literal(lit: Seq<char>) -> Option<Seq<char>> {
    if lit.len() >= 2 && lit[0] == '"' && lit[lit.len() - 1] == '"' {
        json_string_content(lit.subrange(1, lit.len() - 1))
    } else {
        None
    }
}

proof fn lemma_hex_digit_value(d: nat)
    requires
        d < 16,
    ensures
        hex_value(hex_digit(d)) == Some(d),
{
}

/// Reading the escape of one character gives the character back.
proof fn lemma_json_char_reads_back(c: char, t: Seq<char>)
    ensures
        json_string_content(json_char(c) + t) == match json_string_content(t) {
            Some(r) => Some(seq![c] + r),
            None => None::<Seq<char>>,
        },
{
    let s = json_char(c) + t;
    if c == '"' || c == '\\' || c == '\n' || c == '\r' || c == '\t' {
        assert(s.skip(2) =~= t);
    } else if is_control(c) {
        let n = c as u32;
        assert(n <= 0x9f);
        lemma_hex_digit_value((n / 16) as nat);
        lemma_hex_digit_value((n % 16) as nat);
        lemma_hex_digit_value(0);
        assert(hex_digit(0) == '0');
        assert(s[2] == '0' && s[3] == '0');
        assert(s[4] == hex_digit((n / 16) as nat));
        assert(s[5] == hex_digit((n % 16) as nat));
        assert(hex4(s, 2) == Some(((n / 16) * 16 + n % 16) as nat));
        assert((n / 16) * 16 + n % 16 == n);
        assert(s.skip(6) =~= t);
        assert(((n as nat) as u32) as char == c);
    } else {
        assert(s.drop_first() =~= t);
    }
}

proof fn lemma_json_escape_front(s: Seq<char>)
    requires
        s.len() > 0,
    ensures
        spec_json_escape(s) == json_char(s[0]) + spec_json_escape(s.drop_first()),
    decreases s.len(),
{
    if s.len() == 1 {
        assert(s.drop_last() =~= Seq::<char>::empty());
        assert(s.drop_first() =~= Seq::<char>::empty());
        assert(json_escape_fn()(s.last()) == json_char(s[0]));
        assert(json_char(s[0]) + Seq::<char>::empty() =~= Seq::<char>::empty() + json_char(s[0]));
    } else {
        lemma_json_escape_front(s.drop_last());
        assert(s.drop_last().drop_first() =~= s.drop_first().drop_last());
        assert(s.drop_first().last() == s.last());
        assert(json_escape_fn()(s.last()) == json_char(s.last()));
        let a = json_char(s[0]);
        let b = spec_json_escape(s.drop_first().drop_last());
        let c = json_char(s.last());
        assert((a + b) + c =~= a + (b + c));
    }
}

/// Read back as a JSON string, the escaped text is the text itself.
proof fn lemma_json_escape_reads_back(s: Seq<char>)
    ensures
        json_string_content(spec_json_escape(s)) == Some(s),
    decreases s.len(),
{
    if s.len() == 0 {
        assert(spec_json_escape(s) =~= Seq::<char>::empty());
    } else {
        lemma_json_escape_front(s);
        lemma_json_escape_reads_back(s.drop_first());
        lemma_json_char_reads_back(s[0], spec_json_escape(s.drop_first()));
        assert(seq![s[0]] + s.drop_first() =~= s);
    }
}

/// A JSON string literal of escaped text (the text between double
/// quotes) stands for the text itself.
pub proof fn law_json_escape_round_trips(s: Seq<char>)
    ensures
        json_string_literal(seq!['"'] + spec_json_escape(s) + seq!['"']) == Some(s),
{
    lemma_json_escape_reads_back(s);
    let lit = seq!['"'] + spec_json_escape(s) + seq!['"'];
    assert(lit.subrange(1, lit.len() - 1) =~= spec_json_escape(s));
}

/// What `escape_markdown_link_text` writes for one character.
pub open spec fn link_text_char(c: char) -> Seq<char> {
    if c == '\\' || c == '[' || c == ']' { seq!['\\', c] } else { seq![c] }
}

pub open spec fn link_text_escape_fn() -> spec_fn(char) -> Seq<char> {
    |c: char| link_text_char(c)
}

pub open spec fn spec_escape_link_text(s: Seq<char>) -> Seq<char> {
    flat_map(s, link_text_escape_fn())
}

/// Backslash-escapes `\`, `[` and `]` for a Markdown link label.
pub fn escape_markdown_link_text(text: &str) -> (res: String)
    ensures
        res@ == spec_escape_link_text(text@),
{
    let v = chars_of(text);
    let mut out: Vec<char> = Vec::new();
    let mut i: usize = 0;
    while i < v.len()
        invariant
            i <= v.len(),
            v@ == text@,
            out@ == flat_map(v@.take(i as int), link_text_escape_fn()),
        decreases v.len() - i,
    {
        let c = v[i];
        if c == '\\' || c == '[' || c == ']' {
            out.push('\\');
        }
        out.push(c);
        proof {
            assert(out@ =~= flat_map(v@.take(i as int), link_text_escape_fn()) + link_text_char(c));
            assert(v@.take(i + 1) =~= v@.take(i as int).push(c));
            lemma_flat_map_push(v@.take(i as int), c, link_text_escape_fn());
        }
        i += 1;
    }
    assert(v@.take(v.len() as int) =~= v@);
    string_of(&out)
}

pub open spec fn spec_metadata_json(title: Seq<char>, cover: Option<Seq<char>>) -> Seq<char> {
    "{\n  \"title\": \""@ + spec_json_escape(title) + "\",\n  \"cover_asset_path\": "@
        + match cover {
            Some(path) => seq!['"'] + spec_json_escape(path) + seq!['"'],
            None => "null"@,
        } + "\n}\n"@
}

/// The `metadata.json` of a converted book: its title and cover asset.
pub fn metadata_json(title: &str, cover_asset_path: Option<&str>) -> (res: String)
    ensures
        res@ == spec_metadata_json(title@, match cover_asset_path { Some(p) => Some(p@), None => None }),
{
    let mut out: Vec<char> = Vec::new();
    push_str(&mut out, "{\n  \"title\": \"");
    push_str(&mut out, json_escape(title).as_str());
    push_str(&mut out, "\",\n  \"cover_asset_path\": ");
    match cover_asset_path {
        Some(path) => {
            out.push('"');
            push_str(&mut out, json_escape(path).as_str());
            out.push('"');
        },
        None => {
            push_str(&mut out, "null");
        },
    }
    push_str(&mut out, "\n}\n");
    proof {
        let c = match cover_asset_path {
            Some(p) => seq!['"'] + spec_json_escape(p@) + seq!['"'],
            None => "null"@,
        };
        assert(out@ =~= "{\n  \"title\": \""@ + spec_json_escape(title@) + "\",\n  \"cover_asset_path\": "@
            + c + "\n}\n"@);
    }
    string_of(&out)
}

} // verus!
